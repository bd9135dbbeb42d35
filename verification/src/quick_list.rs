use crate::chain::{
    Chain, chain_ok, chain_without, clamp, end_node_at, end_sound, first_index, has_value, head_at,
    later_counter, lemma_add_back, lemma_add_front, lemma_chain_count, lemma_first_in_node,
    lemma_flatten_split, lemma_insert_values, lemma_node_index, lemma_none_in_node, lemma_put_head,
    lemma_range_step, lemma_remove_node, lemma_set_values, lemma_update_part, link_ok, list_chain,
    list_parts, list_range, list_wf, minted, minted_next, needs_node, node_at, node_index,
    node_refused, place_at, pop_parts, push_chain, push_head, push_parts, push_refused,
    record_has_room, seek_node, store_without_node, values_before, values_sound, zip_at,
};
use crate::frame::{
    chain_key_set, chain_keys_of, keys_gone, lemma_gone_node, lemma_gone_none, lemma_gone_put,
    lemma_gone_then, lemma_key_set_apart, lemma_key_set_has, lemma_key_set_has_key,
    lemma_key_set_less, lemma_key_set_more, lemma_key_set_step, lemma_same_outside_put,
    lemma_same_outside_self, lemma_same_outside_then, list_keys, same_outside, store_cleared,
};
use crate::removal::{
    chain_after_rem, lemma_rem_parts, lemma_rem_walk, lemma_rem_walk_start, place_after_rem,
    rem_parts, rem_walk_inv,
};
use crate::error::RrError;
use crate::quick_list_node::QuickListNode;
use crate::types::{
    key_option, key_raw, le16, le32, le32_bytes, le64_bytes, lemma_le32_of_bytes, lemma_splice,
    LenType, MetaKey, no_key_bytes, read_len_type_at, to_little_endian_array, write_len_type_at,
};
use crate::wrap_db::WrapDb;
use crate::types::bytes_eq;
use crate::zip_list::{
    lemma_insert_size, lemma_list_bytes_parse, lemma_parse_list_bytes, lemma_rem_count,
    lemma_rem_size, lemma_size_floor, list_bytes, MAX_VALUE_BYTES, place_of, rem_values, views,
    ZipList,
};
use std::collections::hash_map::DefaultHasher;
use std::hash::Hasher;
use vstd::array::array_as_slice;
use vstd::prelude::*;
use vstd::std_specs::hash::DefaultHasherAdditionalSpecFns;

verus! {

/// Bytes of a head record.
pub const SIZE_HEAD: usize = 40;

/// What a head record says.
pub ghost struct QuickListView {
    /// How many nodes the list has.
    pub len_node: nat,
    /// How many values the list has, over all its nodes.
    pub len_list: nat,
    /// The key that the list minted last, as ten bytes.
    pub meta_key: Seq<u8>,
    /// The key of the first node.
    pub left: Option<Seq<u8>>,
    /// The key of the last node.
    pub right: Option<Seq<u8>>,
}

/// What the bytes of a head record say.
pub open spec fn head_view(b: Seq<u8>) -> QuickListView {
    QuickListView {
        len_node: le32(b.subrange(0, 4)) as nat,
        len_list: le32(b.subrange(4, 8)) as nat,
        meta_key: b.subrange(8, 18),
        left: key_option(b.subrange(18, 28)),
        right: key_option(b.subrange(28, 38)),
    }
}

/// The hash that the keys of the list under `list_key` start with: that
/// of the length of the key, in eight bytes, and of the key.
pub open spec fn key_hash(list_key: Seq<u8>) -> u64 {
    DefaultHasher::spec_finish(seq![le64_bytes(list_key.len() as int), list_key])
}

/// The record at the head of a list, under the list's own key: how many
/// nodes and values the list has, the key it minted last, and the keys of
/// its first and its last node.
#[derive(Clone, Copy, Debug)]
pub struct QuickList([u8; 40]);

impl View for QuickList {
    type V = QuickListView;

    open spec fn view(&self) -> QuickListView {
        head_view(self.bytes())
    }
}

impl QuickList {
    const OFFSET_LEN_LIST: usize = 4;

    const OFFSET_META_KEY: usize = 8;

    const OFFSET_LEFT: usize = 18;

    const OFFSET_RIGHT: usize = 28;

    /// The record as the store holds it.
    pub closed spec fn bytes(&self) -> Seq<u8> {
        self.0@
    }

    /// A record has 40 bytes.
    pub proof fn lemma_len(&self)
        ensures
            self.bytes().len() == 40,
    {
    }

    /// A record of zero bytes: no nodes, no values, no key minted.
    pub fn new() -> (r: Self)
        ensures
            r@ == (QuickListView {
                len_node: 0,
                len_list: 0,
                meta_key: no_key_bytes(),
                left: None,
                right: None,
            }),
    {
        let r = QuickList([0; 40]);
        proof {
            assert(r.0@.subrange(8, 18) =~= no_key_bytes());
            assert(r.0@.subrange(18, 28) =~= no_key_bytes());
            assert(r.0@.subrange(28, 38) =~= no_key_bytes());
        }
        r
    }

    /// The record that `bytes` are, if they are 40.
    pub fn from_bytes(bytes: &[u8]) -> (r: Option<Self>)
        ensures
            r is Some <==> bytes@.len() == 40,
            r is Some ==> r.unwrap().bytes() == bytes@,
    {
        if bytes.len() != SIZE_HEAD {
            return None;
        }
        let mut a: [u8; 40] = [0; 40];
        let mut i: usize = 0;
        while i < SIZE_HEAD
            invariant
                i <= 40,
                bytes@.len() == 40,
                forall|j: int| 0 <= j < i ==> a@[j] == bytes@[j],
            decreases 40 - i,
        {
            a[i] = bytes[i];
            i += 1;
        }
        assert(a@ =~= bytes@);
        Some(QuickList(a))
    }

    /// Reads the head record under `key`: `None` where the store has no
    /// such key, an error where what it has there is no head record.
    pub fn get<T: WrapDb>(db: &T, key: &[u8]) -> (r: Result<Option<QuickList>, RrError>)
        requires
            db.wf(),
        ensures
            match r {
                Ok(Some(q)) => db@.contains_key(key@) && q.bytes() == db@[key@],
                Ok(None) => !db@.contains_key(key@),
                Err(e) => if e is Message {
                    db@.contains_key(key@) && db@[key@].len() != 40
                } else {
                    !db.reliable()
                },
            },
    {
        match db.get(key) {
            Err(e) => Err(e),
            Ok(None) => Ok(None),
            Ok(Some(v)) => match Self::from_bytes(v.as_slice()) {
                Some(q) => Ok(Some(q)),
                None => Err(
                    RrError::message("can not convert vec to QuickList, the len is not eq".to_owned()),
                ),
            },
        }
    }

    /// Reads the node record under `key`: `None` where the store has no
    /// such key, an error where what it has there is no node record.
    pub fn get_node<T: WrapDb>(db: &T, key: &[u8]) -> (r: Result<Option<QuickListNode>, RrError>)
        requires
            db.wf(),
        ensures
            match r {
                Ok(Some(node)) => db@.contains_key(key@) && node.bytes() == db@[key@],
                Ok(None) => !db@.contains_key(key@),
                Err(e) => if e is Message {
                    db@.contains_key(key@) && db@[key@].len() != 44
                } else {
                    !db.reliable()
                },
            },
    {
        QuickListNode::get(db, key)
    }

    /// Mints the next key of the list: the key minted last with its
    /// sequence number raised by one. `None`, with nothing changed,
    /// where the list has no key to start from or has used up the
    /// sequence numbers.
    pub fn next_meta_key(&mut self) -> (r: Option<MetaKey>)
        ensures
            match r {
                Some(k) => {
                    &&& old(self)@.meta_key != no_key_bytes()
                    &&& le16(old(self)@.meta_key.subrange(8, 10)) < 65535
                    &&& k@.subrange(0, 8) == old(self)@.meta_key.subrange(0, 8)
                    &&& le16(k@.subrange(8, 10)) == le16(old(self)@.meta_key.subrange(8, 10)) + 1
                    &&& k@.len() == 10
                    &&& k@ != no_key_bytes()
                    &&& final(self)@ == (QuickListView { meta_key: k@, ..old(self)@ })
                },
                None => {
                    &&& (old(self)@.meta_key == no_key_bytes() || le16(
                        old(self)@.meta_key.subrange(8, 10),
                    ) == 65535)
                    &&& final(self)@ == old(self)@
                },
            },
    {
        match self.meta_key() {
            None => None,
            Some(mut k) => {
                if k.sep() == u16::MAX {
                    return None;
                }
                let ghost before = k@;
                k.add_sep(1);
                proof {
                    MetaKey::lemma_parts_of(k.spec_key(), k.spec_sep());
                    k.lemma_parts();
                    let z = no_key_bytes();
                    assert(le16(z.subrange(8, 10)) == 0);
                    crate::types::lemma_le64_bytes_of(before.subrange(0, 8));
                    crate::types::lemma_le64_bytes_of(k@.subrange(0, 8));
                }
                self.set_meta_key(&Some(&k));
                Some(k)
            },
        }
    }

    /// How many nodes the list has.
    pub fn len_node(&self) -> (r: LenType)
        ensures
            r == self@.len_node,
    {
        read_len_type_at(array_as_slice(&self.0), 0)
    }

    /// Sets the count of nodes.
    pub fn set_len_node(&mut self, len: LenType)
        ensures
            final(self)@ == (QuickListView { len_node: len as nat, ..old(self)@ }),
    {
        write_len_type_at(&mut self.0, 0, len);
        proof {
            let b = old(self).0@;
            let x = le32_bytes(len as int);
            lemma_le32_of_bytes(len as int);
            lemma_splice(b, 0, x, 0, 4);
            lemma_splice(b, 0, x, 4, 4);
            lemma_splice(b, 0, x, 8, 10);
            lemma_splice(b, 0, x, 18, 10);
            lemma_splice(b, 0, x, 28, 10);
        }
    }

    /// How many values the list has.
    pub fn len_list(&self) -> (r: LenType)
        ensures
            r == self@.len_list,
    {
        read_len_type_at(array_as_slice(&self.0), Self::OFFSET_LEN_LIST)
    }

    /// Sets the count of values.
    pub fn set_len_list(&mut self, len: LenType)
        ensures
            final(self)@ == (QuickListView { len_list: len as nat, ..old(self)@ }),
    {
        write_len_type_at(&mut self.0, Self::OFFSET_LEN_LIST, len);
        proof {
            let b = old(self).0@;
            let x = le32_bytes(len as int);
            lemma_le32_of_bytes(len as int);
            lemma_splice(b, 4, x, 0, 4);
            lemma_splice(b, 4, x, 4, 4);
            lemma_splice(b, 4, x, 8, 10);
            lemma_splice(b, 4, x, 18, 10);
            lemma_splice(b, 4, x, 28, 10);
        }
    }

    /// The key that the list minted last, or `None` where it has none to
    /// start from.
    pub fn meta_key(&self) -> (r: Option<MetaKey>)
        ensures
            match r {
                Some(k) => self@.meta_key == k@ && k@ != no_key_bytes(),
                None => self@.meta_key == no_key_bytes(),
            },
    {
        MetaKey::read_at(array_as_slice(&self.0), Self::OFFSET_META_KEY)
    }

    /// Sets the key that the list mints from.
    pub fn set_meta_key(&mut self, meta_key: &Option<&MetaKey>)
        ensures
            final(self)@ == (QuickListView { meta_key: key_raw(*meta_key), ..old(self)@ }),
    {
        MetaKey::write_at(&mut self.0, Self::OFFSET_META_KEY, meta_key);
        proof {
            let b = old(self).0@;
            let x = key_raw(*meta_key);
            lemma_splice(b, 8, x, 0, 4);
            lemma_splice(b, 8, x, 4, 4);
            lemma_splice(b, 8, x, 8, 10);
            lemma_splice(b, 8, x, 18, 10);
            lemma_splice(b, 8, x, 28, 10);
        }
    }

    /// Gives the list the key to mint from: the hash of `list_key` and
    /// the sequence number 0. Returns that key.
    pub fn init_meta_key(&mut self, list_key: &[u8]) -> (r: MetaKey)
        ensures
            r@ == MetaKey::spec_bytes(key_hash(list_key@), 0),
            final(self)@ == (QuickListView { meta_key: r@, ..old(self)@ }),
    {
        let mut meta_key = MetaKey::new();
        let mut hasher = DefaultHasher::new();
        let len_bytes: Vec<u8> = to_little_endian_array(list_key.len() as u64);
        hasher.write(len_bytes.as_slice());
        hasher.write(list_key);
        assert(hasher@ =~= seq![le64_bytes(list_key@.len() as int), list_key@]);
        meta_key.set_key(hasher.finish());
        self.set_meta_key(&Some(&meta_key));
        meta_key
    }

    /// The key of the first node, if the list has one.
    pub fn left(&self) -> (r: Option<MetaKey>)
        ensures
            match r {
                Some(k) => self@.left == Some(k@),
                None => self@.left is None,
            },
    {
        MetaKey::read_at(array_as_slice(&self.0), Self::OFFSET_LEFT)
    }

    /// Sets the key of the first node.
    pub fn set_left(&mut self, meta_key: &Option<&MetaKey>)
        ensures
            final(self)@ == (QuickListView { left: key_option(key_raw(*meta_key)), ..old(self)@ }),
    {
        MetaKey::write_at(&mut self.0, Self::OFFSET_LEFT, meta_key);
        proof {
            let b = old(self).0@;
            let x = key_raw(*meta_key);
            lemma_splice(b, 18, x, 0, 4);
            lemma_splice(b, 18, x, 4, 4);
            lemma_splice(b, 18, x, 8, 10);
            lemma_splice(b, 18, x, 18, 10);
            lemma_splice(b, 18, x, 28, 10);
        }
    }

    /// The key of the last node, if the list has one.
    pub fn right(&self) -> (r: Option<MetaKey>)
        ensures
            match r {
                Some(k) => self@.right == Some(k@),
                None => self@.right is None,
            },
    {
        MetaKey::read_at(array_as_slice(&self.0), Self::OFFSET_RIGHT)
    }

    /// Sets the key of the last node.
    pub fn set_right(&mut self, meta_key: &Option<&MetaKey>)
        ensures
            final(self)@ == (QuickListView { right: key_option(key_raw(*meta_key)), ..old(self)@ }),
    {
        MetaKey::write_at(&mut self.0, Self::OFFSET_RIGHT, meta_key);
        proof {
            let b = old(self).0@;
            let x = key_raw(*meta_key);
            lemma_splice(b, 28, x, 0, 4);
            lemma_splice(b, 28, x, 4, 4);
            lemma_splice(b, 28, x, 8, 10);
            lemma_splice(b, 28, x, 18, 10);
            lemma_splice(b, 28, x, 28, 10);
        }
    }

    /// The record as the store takes it.
    pub fn as_ref(&self) -> (r: &[u8])
        ensures
            r@ == self.bytes(),
    {
        array_as_slice(&self.0)
    }
}

impl QuickList {
    /// The key and the record of the node at the left or the right end
    /// of the list.
    fn end_node<T: WrapDb>(&self, tr: &T, left: bool) -> (r: Result<
        (MetaKey, QuickListNode),
        RrError,
    >)
        requires
            tr.wf(),
        ensures
            match r {
                Ok((k, node)) => {
                    &&& (if left {
                        self@.left
                    } else {
                        self@.right
                    }) == Some(k@)
                    &&& end_node_at(tr@, self@, left) == Some(node@)
                    &&& node_at(tr@, k@) == Some(node@)
                    &&& node.bytes() == tr@[k@]
                    &&& tr@.contains_key(k@)
                },
                Err(e) => if e is Message {
                    match (if left {
                        self@.left
                    } else {
                        self@.right
                    }) {
                        Some(k) => node_at(tr@, k) is None,
                        None => true,
                    }
                } else {
                    !tr.reliable()
                },
            },
    {
        let key = if left {
            self.left()
        } else {
            self.right()
        };
        match key {
            None => Err(RrError::none_error("the end of the list")),
            Some(k) => match QuickListNode::get(tr, k.as_ref()) {
                Err(e) => Err(e),
                Ok(None) => Err(RrError::none_error("the node at the end of the list")),
                Ok(Some(node)) => {
                    proof {
                        node.lemma_len();
                    }
                    Ok((k, node))
                },
            },
        }
    }

    /// Puts `value` into the node at one end of the list, which has room
    /// for it.
    fn push_grow<T: WrapDb>(
        &mut self,
        tr: &mut T,
        list_key: &[u8],
        value: &[u8],
        left: bool,
        node_key: MetaKey,
        node: QuickListNode,
        Ghost(c): Ghost<Chain>,
    ) -> (r: Result<i32, RrError>)
        requires
            old(tr).wf(),
            value@.len() <= 0xFFFF,
            old(self)@.len_list < i32::MAX,
            node_at(old(tr)@, node_key@) == Some(node@),
            node@.len_list + 1 <= QuickListNode::MAX_LEN,
            node@.len_bytes + 4 + value@.len() <= QuickListNode::MAX_BYTES,
        ensures
            final(tr).wf(),
            final(tr).reliable() == old(tr).reliable(),
            later_counter(old(self)@.meta_key, final(self)@.meta_key),
            r is Ok ==> values_sound(old(tr)@, node@),
            r is Err && r->Err_0 is Message ==> final(tr)@ == old(tr)@,
            r is Err && !(r->Err_0 is Message) ==> !old(tr).reliable(),
            chain_ok(old(tr)@, list_key@, old(self)@, c) && c.keys.len() > 0 && node_key@
                == c.keys[if left {
                0
            } else {
                c.keys.len() - 1
            }] ==> match r {
                Ok(n) => {
                    &&& head_at(final(tr)@, list_key@) == Some(final(self)@)
                    &&& list_wf(final(tr)@, list_key@)
                    &&& list_parts(final(tr)@, list_key@) == push_parts(c.parts, value@, left)
                    &&& n == old(self)@.len_list + 1
                    &&& !needs_node(c.parts, value@, left)
                    &&& same_outside(old(tr)@, final(tr)@, chain_keys_of(list_key@, c))
                    &&& list_keys(final(tr)@, list_key@) == chain_keys_of(list_key@, c)
                    &&& final(self)@ == (QuickListView {
                        len_list: old(self)@.len_list + 1,
                        ..old(self)@
                    })
                    &&& list_chain(final(tr)@, list_key@) == (Chain {
                        parts: push_parts(c.parts, value@, left),
                        ..c
                    })
                },
                Err(e) => !(e is Message),
            },
    {
        let ghost m = tr@;
        let ghost h = self@;
        let ghost k = list_key@;
        let ghost j = if left {
            0
        } else {
            c.keys.len() - 1
        };
        let ghost ok = chain_ok(m, k, h, c) && c.keys.len() > 0 && node_key@ == c.keys[j];
        proof {
            if ok {
                assert(link_ok(m, c, j));
                lemma_list_bytes_parse(m[c.zkeys[j]]);
            }
        }
        let mut node = node;
        let zip_key = match node.values_key() {
            Some(zk) => zk,
            None => {
                return Err(RrError::none_error("values_key"));
            },
        };
        let mut zip = match ZipList::get(tr, zip_key.as_ref()) {
            Err(e) => {
                return Err(e);
            },
            Ok(None) => {
                return Err(RrError::none_error("ZipList::get"));
            },
            Ok(Some(z)) => z,
        };
        if zip.len() != node.len_list() || zip.as_ref().len() != node.len_bytes() as usize {
            return Err(RrError::data_error("the node does not describe its packed list"));
        }
        let ghost old_part = zip@;
        proof {
            zip.lemma_bytes();
            lemma_insert_size(old_part, 0, value@);
        }
        if left {
            zip.push_left(value);
        } else {
            zip.push_right(value);
        }
        proof {
            zip.lemma_bytes();
        }
        node.set_len_list(zip.len());
        node.set_len_bytes(zip.as_ref().len() as u32);
        let len: LenType = self.len_list();
        self.set_len_list(len + 1);
        match tr.put(zip_key.as_ref(), zip.as_ref()) {
            Err(e) => {
                return Err(e);
            },
            Ok(_) => {},
        }
        match tr.put(node_key.as_ref(), node.as_ref()) {
            Err(e) => {
                return Err(e);
            },
            Ok(_) => {},
        }
        match tr.put(list_key, self.as_ref()) {
            Err(e) => {
                return Err(e);
            },
            Ok(_) => {},
        }
        proof {
            if ok {
                node.lemma_len();
                self.lemma_len();
                let c2 = Chain { parts: c.parts.update(j, zip@), ..c };
                lemma_update_part(m, k, h, c, j, zip@, zip.bytes(), node.bytes(), self@);
                lemma_put_head(
                    m.insert(c.zkeys[j], zip.bytes()).insert(c.keys[j], node.bytes()),
                    k,
                    self@,
                    c2,
                    self.bytes(),
                );
                lemma_key_set_has(k, c, j);
                lemma_key_set_less(k, c, j, c2.parts);
                let s = chain_keys_of(k, c);
                let m1 = m.insert(c.zkeys[j], zip.bytes());
                let m2 = m1.insert(c.keys[j], node.bytes());
                lemma_same_outside_self(m, s);
                lemma_same_outside_put(m, m, s, c.zkeys[j], zip.bytes());
                lemma_same_outside_put(m, m1, s, c.keys[j], node.bytes());
                lemma_same_outside_put(m, m2, s, k, self.bytes());
            }
        }
        Ok((len + 1) as i32)
    }

    /// Puts `value` into a node of its own at one end of the list, beside
    /// the node `end` that was at that end, if the list had one.
    fn push_node<T: WrapDb>(
        &mut self,
        tr: &mut T,
        list_key: &[u8],
        value: &[u8],
        left: bool,
        end: Option<(MetaKey, QuickListNode)>,
        Ghost(c): Ghost<Chain>,
    ) -> (r: Result<i32, RrError>)
        requires
            old(tr).wf(),
            value@.len() <= 0xFFFF,
            old(self)@.len_list < i32::MAX,
            match end {
                Some((k0, nd)) => node_at(old(tr)@, k0@) == Some(nd@),
                None => true,
            },
        ensures
            final(tr).wf(),
            final(tr).reliable() == old(tr).reliable(),
            later_counter(old(self)@.meta_key, final(self)@.meta_key),
            r is Err && r->Err_0 is Message ==> final(tr)@ == old(tr)@,
            r is Err && !(r->Err_0 is Message) ==> !old(tr).reliable(),
            chain_ok(old(tr)@, list_key@, old(self)@, c) && (match end {
                Some((k0, nd)) => c.keys.len() > 0 && k0@ == c.keys[if left {
                    0
                } else {
                    c.keys.len() - 1
                }],
                None => c.keys.len() == 0,
            }) ==> match r {
                Ok(n) => {
                    &&& head_at(final(tr)@, list_key@) == Some(final(self)@)
                    &&& list_wf(final(tr)@, list_key@)
                    &&& list_parts(final(tr)@, list_key@) == (if left {
                        seq![seq![value@]] + c.parts
                    } else {
                        c.parts.push(seq![value@])
                    })
                    &&& n == old(self)@.len_list + 1
                    &&& !node_refused(old(self)@, list_key@)
                    &&& same_outside(old(tr)@, final(tr)@, list_keys(final(tr)@, list_key@))
                    &&& chain_keys_of(list_key@, c).subset_of(list_keys(final(tr)@, list_key@))
                    &&& final(self)@ == (QuickListView {
                        len_node: old(self)@.len_node + 1,
                        len_list: old(self)@.len_list + 1,
                        meta_key: minted_next(old(self)@.meta_key, 2),
                        left: if left || c.keys.len() == 0 {
                            Some(minted_next(old(self)@.meta_key, 1))
                        } else {
                            old(self)@.left
                        },
                        right: if !left || c.keys.len() == 0 {
                            Some(minted_next(old(self)@.meta_key, 1))
                        } else {
                            old(self)@.right
                        },
                    })
                    &&& list_chain(final(tr)@, list_key@) == (if left {
                        Chain {
                            keys: seq![minted_next(old(self)@.meta_key, 1)] + c.keys,
                            zkeys: seq![minted_next(old(self)@.meta_key, 2)] + c.zkeys,
                            parts: seq![seq![value@]] + c.parts,
                        }
                    } else {
                        Chain {
                            keys: c.keys.push(minted_next(old(self)@.meta_key, 1)),
                            zkeys: c.zkeys.push(minted_next(old(self)@.meta_key, 2)),
                            parts: c.parts.push(seq![value@]),
                        }
                    })
                },
                Err(e) => e is Message ==> node_refused(old(self)@, list_key@),
            },
    {
        let ghost m = tr@;
        let ghost h = self@;
        let ghost k = list_key@;
        let ghost v = value@;
        let ghost n = c.keys.len() as int;
        let ghost j = if left {
            0
        } else {
            n - 1
        };
        let ghost ok = chain_ok(m, k, h, c) && (match end {
            Some((k0, nd)) => n > 0 && k0@ == c.keys[j],
            None => n == 0,
        });
        if self.len_node() == u32::MAX {
            return Err(RrError::data_error("the list has no room for a node"));
        }
        let new_node_key = match self.next_meta_key() {
            Some(nk) => nk,
            None => {
                return Err(RrError::none_error("next_meta_key"));
            },
        };
        let zip_key = match self.next_meta_key() {
            Some(zk) => zk,
            None => {
                return Err(RrError::message("next_meta_key return None".to_owned()));
            },
        };
        proof {
            crate::types::lemma_le16_bytes_of(new_node_key@.subrange(8, 10));
            crate::types::lemma_le16_bytes_of(zip_key@.subrange(8, 10));
            assert(new_node_key@ =~= minted_next(h.meta_key, 1));
            assert(zip_key@ =~= minted_next(h.meta_key, 2));
        }
        if bytes_eq(new_node_key.as_ref(), list_key) || bytes_eq(zip_key.as_ref(), list_key) {
            return Err(RrError::data_error("the key of the list is a key of its own records"));
        }
        let mut zip = ZipList::new();
        zip.push_left(value);
        proof {
            zip.lemma_bytes();
            lemma_insert_size(Seq::<Seq<u8>>::empty(), 0, v);
            lemma_parse_list_bytes(Seq::<Seq<u8>>::empty());
            assert(Seq::<Seq<u8>>::empty().push(v) =~= seq![v]);
            assert(seq![v] + Seq::<Seq<u8>>::empty() =~= seq![v]);
            crate::zip_list::lemma_body_empty();
        }
        let mut new_node = QuickListNode::new();
        new_node.set_values_key(&Some(&zip_key));
        new_node.set_len_list(1);
        new_node.set_len_bytes(zip.as_ref().len() as u32);
        let len: LenType = self.len_list();
        let nodes: LenType = self.len_node();
        self.set_len_node(nodes + 1);
        self.set_len_list(len + 1);
        if left {
            self.set_left(&Some(&new_node_key));
        } else {
            self.set_right(&Some(&new_node_key));
        }
        let mut end_node: Option<(MetaKey, QuickListNode)> = None;
        match end {
            Some((old_key, old_node)) => {
                let mut old_node = old_node;
                if left {
                    new_node.set_right(&Some(&old_key));
                    old_node.set_left(&Some(&new_node_key));
                } else {
                    new_node.set_left(&Some(&old_key));
                    old_node.set_right(&Some(&new_node_key));
                }
                end_node = Some((old_key, old_node));
            },
            None => {
                if left {
                    self.set_right(&Some(&new_node_key));
                } else {
                    self.set_left(&Some(&new_node_key));
                }
            },
        }
        match tr.put(zip_key.as_ref(), zip.as_ref()) {
            Err(e) => {
                return Err(e);
            },
            Ok(_) => {},
        }
        match tr.put(new_node_key.as_ref(), new_node.as_ref()) {
            Err(e) => {
                return Err(e);
            },
            Ok(_) => {},
        }
        let ghost mut ob: Seq<u8> = Seq::empty();
        match end_node {
            Some((old_key, old_node)) => {
                proof {
                    ob = old_node.bytes();
                    old_node.lemma_len();
                }
                match tr.put(old_key.as_ref(), old_node.as_ref()) {
                    Err(e) => {
                        return Err(e);
                    },
                    Ok(_) => {},
                }
            },
            None => {},
        }
        let ghost m3 = tr@;
        match tr.put(list_key, self.as_ref()) {
            Err(e) => {
                return Err(e);
            },
            Ok(_) => {},
        }
        proof {
            if ok {
                new_node.lemma_len();
                self.lemma_len();
                if n > 0 {
                    assert(link_ok(m, c, j));
                    lemma_key_set_has(k, c, j);
                }
                lemma_key_set_more(k, c, new_node_key@, zip_key@, v);
                let s = chain_keys_of(k, c).insert(new_node_key@).insert(zip_key@);
                let m1 = m.insert(zip_key@, zip.bytes());
                let m2 = m1.insert(new_node_key@, new_node.bytes());
                lemma_same_outside_self(m, s);
                lemma_same_outside_put(m, m, s, zip_key@, zip.bytes());
                lemma_same_outside_put(m, m1, s, new_node_key@, new_node.bytes());
                if n > 0 {
                    lemma_same_outside_put(m, m2, s, c.keys[j], ob);
                }
                lemma_same_outside_put(m, m3, s, k, self.bytes());
                if left {
                    lemma_add_front(
                        m,
                        k,
                        h,
                        c,
                        new_node_key@,
                        zip_key@,
                        v,
                        zip.bytes(),
                        new_node.bytes(),
                        ob,
                        self@,
                    );
                    lemma_put_head(
                        m3,
                        k,
                        self@,
                        Chain {
                            keys: seq![new_node_key@] + c.keys,
                            zkeys: seq![zip_key@] + c.zkeys,
                            parts: seq![seq![v]] + c.parts,
                        },
                        self.bytes(),
                    );
                } else {
                    lemma_add_back(
                        m,
                        k,
                        h,
                        c,
                        new_node_key@,
                        zip_key@,
                        v,
                        zip.bytes(),
                        new_node.bytes(),
                        ob,
                        self@,
                    );
                    lemma_put_head(
                        m3,
                        k,
                        self@,
                        Chain {
                            keys: c.keys.push(new_node_key@),
                            zkeys: c.zkeys.push(zip_key@),
                            parts: c.parts.push(seq![v]),
                        },
                        self.bytes(),
                    );
                }
            }
        }
        Ok((len + 1) as i32)
    }

    /// Puts `value` at the left or the right end of the list whose head
    /// record this is, and writes the records that change. The value
    /// goes into the node at that end, or into a node of its own where
    /// the list has no node or that node would grow beyond `MAX_LEN`
    /// values or `MAX_BYTES` bytes. Returns the new count of values.
    pub fn push<T: WrapDb>(
        &mut self,
        tr: &mut T,
        list_key: &[u8],
        value: &[u8],
        left: bool,
        Ghost(c): Ghost<Chain>,
    ) -> (r: Result<i32, RrError>)
        requires
            old(tr).wf(),
        ensures
            final(tr).wf(),
            final(tr).reliable() == old(tr).reliable(),
            later_counter(old(self)@.meta_key, final(self)@.meta_key),
            value@.len() > 0xFFFF || old(self)@.len_list >= i32::MAX ==> r is Err,
            r is Ok && old(self)@.len_node != 0 ==> end_node_at(old(tr)@, old(self)@, left) is Some
                && (record_has_room(end_node_at(old(tr)@, old(self)@, left).unwrap(), value@)
                ==> values_sound(old(tr)@, end_node_at(old(tr)@, old(self)@, left).unwrap())),
            r is Err && r->Err_0 is Message ==> final(tr)@ == old(tr)@,
            r is Err && !(r->Err_0 is Message) ==> !old(tr).reliable(),
            chain_ok(old(tr)@, list_key@, old(self)@, c) ==> match r {
                Ok(n) => {
                    &&& head_at(final(tr)@, list_key@) == Some(final(self)@)
                    &&& list_wf(final(tr)@, list_key@)
                    &&& list_parts(final(tr)@, list_key@) == push_parts(c.parts, value@, left)
                    &&& n == old(self)@.len_list + 1
                    &&& !push_refused(old(self)@, c.parts, list_key@, value@, left)
                    &&& same_outside(old(tr)@, final(tr)@, list_keys(final(tr)@, list_key@))
                    &&& chain_keys_of(list_key@, c).subset_of(list_keys(final(tr)@, list_key@))
                    &&& final(self)@ == push_head(old(self)@, c, value@, left)
                    &&& list_chain(final(tr)@, list_key@) == push_chain(
                        c,
                        old(self)@.meta_key,
                        value@,
                        left,
                    )
                },
                Err(e) => e is Message ==> push_refused(
                    old(self)@,
                    c.parts,
                    list_key@,
                    value@,
                    left,
                ),
            },
    {
        let ghost m = tr@;
        let ghost h = self@;
        let ghost k = list_key@;
        let ghost ok = chain_ok(m, k, h, c);
        if value.len() > MAX_VALUE_BYTES {
            return Err(RrError::data_error("the value is too long"));
        }
        if self.len_list() >= 0x7fff_ffff {
            return Err(RrError::data_error("the list is full"));
        }
        if self.len_node() != 0 {
            let ghost j = if left {
                0
            } else {
                c.keys.len() - 1
            };
            proof {
                if ok {
                    assert(link_ok(m, c, j));
                    lemma_list_bytes_parse(m[c.zkeys[j]]);
                }
            }
            let (node_key, node) = match self.end_node(tr, left) {
                Ok(x) => x,
                Err(e) => {
                    return Err(e);
                },
            };
            let full: bool = node.len_list() as u64 + 1 > QuickListNode::MAX_LEN as u64
                || node.len_bytes() as u64 + 4 + value.len() as u64
                > QuickListNode::MAX_BYTES as u64;
            if !full {
                return self.push_grow(tr, list_key, value, left, node_key, node, Ghost(c));
            }
            return self.push_node(tr, list_key, value, left, Some((node_key, node)), Ghost(c));
        }
        self.push_node(tr, list_key, value, left, None, Ghost(c))
    }

    /// Takes the node under `node_key` out of the list: deletes its
    /// packed list and its record, and gives each neighbour that it had
    /// the other, or none, in its place. The head record counts the node
    /// and its values off and names the new ends; it is not written.
    pub fn drain_node<T: WrapDb>(
        &mut self,
        tr: &mut T,
        node_key: &MetaKey,
        node: &QuickListNode,
        zip_key: &MetaKey,
        Ghost(list_key): Ghost<Seq<u8>>,
        Ghost(c): Ghost<Chain>,
        Ghost(j): Ghost<int>,
    ) -> (r: Result<(), RrError>)
        requires
            old(tr).wf(),
        ensures
            final(tr).wf(),
            final(tr).reliable() == old(tr).reliable(),
            later_counter(old(self)@.meta_key, final(self)@.meta_key),
            r is Err && r->Err_0 is Message ==> final(tr)@ == old(tr)@,
            r is Err && !(r->Err_0 is Message) ==> !old(tr).reliable(),
            chain_ok(old(tr)@, list_key, old(self)@, c) && 0 <= j < c.keys.len() && node_key@
                == c.keys[j] && node_at(old(tr)@, c.keys[j]) == Some(node@) && zip_key@
                == c.zkeys[j] ==> match r {
                Ok(_) => {
                    &&& chain_ok(final(tr)@, list_key, final(self)@, chain_without(c, j))
                    &&& final(self)@.len_list == old(self)@.len_list - c.parts[j].len()
                    &&& final(self)@.len_node == old(self)@.len_node - 1
                    &&& final(self)@.meta_key == old(self)@.meta_key
                    &&& final(tr)@.contains_key(list_key) == old(tr)@.contains_key(list_key)
                    &&& same_outside(old(tr)@, final(tr)@, chain_keys_of(list_key, c))
                    &&& !final(tr)@.contains_key(c.keys[j])
                    &&& !final(tr)@.contains_key(c.zkeys[j])
                    &&& keys_gone(
                        final(tr)@,
                        chain_keys_of(list_key, c),
                        chain_keys_of(list_key, chain_without(c, j)),
                    )
                },
                Err(e) => !(e is Message),
            },
    {
        let ghost m = tr@;
        let ghost h = self@;
        let ghost n = c.keys.len() as int;
        let ghost ok = chain_ok(m, list_key, h, c) && 0 <= j < n && node_key@ == c.keys[j]
            && node_at(m, c.keys[j]) == Some(node@) && zip_key@ == c.zkeys[j];
        proof {
            if ok {
                assert(link_ok(m, c, j));
                if j > 0 {
                    assert(link_ok(m, c, j - 1));
                }
                if j < n - 1 {
                    assert(link_ok(m, c, j + 1));
                }
                lemma_flatten_split(c.parts, j);
            }
        }
        let left_key: Option<MetaKey> = node.left();
        let right_key: Option<MetaKey> = node.right();
        let mut left_node: Option<QuickListNode> = None;
        let mut right_node: Option<QuickListNode> = None;
        match left_key {
            Some(lk) => match QuickListNode::get(tr, lk.as_ref()) {
                Err(e) => {
                    return Err(e);
                },
                Ok(None) => {
                    return Err(RrError::none_error("left node"));
                },
                Ok(Some(ln)) => {
                    left_node = Some(ln);
                },
            },
            None => {},
        }
        match right_key {
            Some(rk) => match QuickListNode::get(tr, rk.as_ref()) {
                Err(e) => {
                    return Err(e);
                },
                Ok(None) => {
                    return Err(RrError::none_error("right node"));
                },
                Ok(Some(rn)) => {
                    right_node = Some(rn);
                },
            },
            None => {},
        }
        let nodes: LenType = self.len_node();
        let len: LenType = self.len_list();
        let gone: LenType = node.len_list();
        if nodes < 1 || len < gone {
            return Err(RrError::data_error("the head counts less than the list holds"));
        }
        match tr.delete(zip_key.as_ref()) {
            Err(e) => {
                return Err(e);
            },
            Ok(_) => {},
        }
        match tr.delete(node_key.as_ref()) {
            Err(e) => {
                return Err(e);
            },
            Ok(_) => {},
        }
        let ghost mut lb: Seq<u8> = Seq::empty();
        let ghost mut rb: Seq<u8> = Seq::empty();
        match (left_key, left_node) {
            (Some(lk), Some(ln)) => {
                let mut ln = ln;
                match right_key {
                    Some(rk) => {
                        ln.set_right(&Some(&rk));
                    },
                    None => {
                        ln.set_right(&None);
                    },
                }
                proof {
                    lb = ln.bytes();
                    ln.lemma_len();
                }
                match tr.put(lk.as_ref(), ln.as_ref()) {
                    Err(e) => {
                        return Err(e);
                    },
                    Ok(_) => {},
                }
            },
            _ => {
                match right_key {
                    Some(rk) => {
                        self.set_left(&Some(&rk));
                    },
                    None => {
                        self.set_left(&None);
                    },
                }
            },
        }
        match (right_key, right_node) {
            (Some(rk), Some(rn)) => {
                let mut rn = rn;
                match left_key {
                    Some(lk) => {
                        rn.set_left(&Some(&lk));
                    },
                    None => {
                        rn.set_left(&None);
                    },
                }
                proof {
                    rb = rn.bytes();
                    rn.lemma_len();
                }
                match tr.put(rk.as_ref(), rn.as_ref()) {
                    Err(e) => {
                        return Err(e);
                    },
                    Ok(_) => {},
                }
            },
            _ => {
                match left_key {
                    Some(lk) => {
                        self.set_right(&Some(&lk));
                    },
                    None => {
                        self.set_right(&None);
                    },
                }
            },
        }
        self.set_len_node(nodes - 1);
        self.set_len_list(len - gone);
        proof {
            if ok {
                assert(tr@ =~= store_without_node(m, c, j, lb, rb));
                lemma_remove_node(m, list_key, h, c, j, lb, rb, self@);
                lemma_key_set_has(list_key, c, j);
                let s = chain_keys_of(list_key, c);
                let m1 = m.remove(c.zkeys[j]);
                let m2 = m1.remove(c.keys[j]);
                lemma_same_outside_self(m, s);
                lemma_same_outside_put(m, m, s, c.zkeys[j], lb);
                lemma_same_outside_put(m, m1, s, c.keys[j], lb);
                let m3 = if j > 0 {
                    m2.insert(c.keys[j - 1], lb)
                } else {
                    m2
                };
                if j > 0 {
                    lemma_key_set_has(list_key, c, j - 1);
                    lemma_same_outside_put(m, m2, s, c.keys[j - 1], lb);
                }
                if j < n - 1 {
                    lemma_key_set_has(list_key, c, j + 1);
                    lemma_same_outside_put(m, m3, s, c.keys[j + 1], rb);
                    assert(c.keys[j + 1] != c.keys[j]);
                    assert(c.keys[j + 1] != c.zkeys[j]);
                }
                if j > 0 {
                    assert(c.keys[j - 1] != c.keys[j]);
                    assert(c.keys[j - 1] != c.zkeys[j]);
                }
                assert(c.keys[j] != c.zkeys[j]);
                lemma_gone_node(tr@, list_key, c, j);
                assert(c.keys[j] != list_key);
                assert(c.zkeys[j] != list_key);
                if j > 0 {
                    assert(c.keys[j - 1] != list_key);
                }
                if j < n - 1 {
                    assert(c.keys[j + 1] != list_key);
                }
            }
        }
        Ok(())
    }

    /// Takes the value at the left or the right end off the list whose
    /// head record this is, and writes the records that change. A node
    /// that loses its last value leaves the list; the head record stays
    /// in the store also where the list loses its last value. Returns
    /// the value, or `None` where the list has none.
    pub fn pop<T: WrapDb>(
        &mut self,
        tr: &mut T,
        list_key: &[u8],
        left: bool,
        Ghost(c): Ghost<Chain>,
    ) -> (r: Result<Option<Vec<u8>>, RrError>)
        requires
            old(tr).wf(),
        ensures
            final(tr).wf(),
            final(tr).reliable() == old(tr).reliable(),
            later_counter(old(self)@.meta_key, final(self)@.meta_key),
            r matches Ok(None) ==> old(self)@.len_list == 0,
            r matches Ok(Some(_)) ==> old(self)@.len_list >= 1 && end_sound(
                old(tr)@,
                old(self)@,
                left,
            ),
            r is Err && r->Err_0 is Message ==> final(tr)@ == old(tr)@,
            r is Err && !(r->Err_0 is Message) ==> !old(tr).reliable(),
            chain_ok(old(tr)@, list_key@, old(self)@, c) ==> match r {
                Ok(Some(v)) => {
                    &&& c.parts.len() > 0
                    &&& v@ == (if left {
                        c.parts[0][0]
                    } else {
                        c.parts[c.parts.len() - 1].last()
                    })
                    &&& head_at(final(tr)@, list_key@) == Some(final(self)@)
                    &&& list_wf(final(tr)@, list_key@)
                    &&& list_parts(final(tr)@, list_key@) == pop_parts(c.parts, left)
                    &&& same_outside(old(tr)@, final(tr)@, chain_keys_of(list_key@, c))
                    &&& keys_gone(
                        final(tr)@,
                        chain_keys_of(list_key@, c),
                        list_keys(final(tr)@, list_key@),
                    )
                },
                Ok(None) => c.parts.len() == 0 && final(tr)@ == old(tr)@,
                Err(e) => !(e is Message),
            },
    {
        let ghost m = tr@;
        let ghost h = self@;
        let ghost k = list_key@;
        let ghost n = c.keys.len() as int;
        let ghost j = if left {
            0
        } else {
            n - 1
        };
        let ghost ok = chain_ok(m, k, h, c);
        proof {
            if ok && n > 0 {
                assert(link_ok(m, c, j));
                lemma_list_bytes_parse(m[c.zkeys[j]]);
                lemma_flatten_split(c.parts, j);
                lemma_key_set_has(k, c, j);
            }
        }
        if self.len_list() < 1 {
            return Ok(None);
        }
        let (node_key, node) = match self.end_node(tr, left) {
            Ok(x) => x,
            Err(e) => {
                return Err(e);
            },
        };
        let mut node = node;
        let zip_key = match node.values_key() {
            Some(zk) => zk,
            None => {
                return Err(RrError::none_error("zip key"));
            },
        };
        let mut zip = match ZipList::get(tr, zip_key.as_ref()) {
            Err(e) => {
                return Err(e);
            },
            Ok(None) => {
                return Err(RrError::none_error("zip list"));
            },
            Ok(Some(z)) => z,
        };
        if zip.len() != node.len_list() || zip.as_ref().len() != node.len_bytes() as usize {
            return Err(RrError::data_error("the node does not describe its packed list"));
        }
        let ghost old_part = zip@;
        let popped = if left {
            zip.pop_left()
        } else {
            zip.pop_right()
        };
        let value: Vec<u8> = match popped {
            Some(v) => v,
            None => {
                return Err(RrError::data_error("the node at the end of the list is empty"));
            },
        };
        match self.modify_node(
            tr,
            &zip_key,
            &zip,
            &node_key,
            &mut node,
            Ghost(k),
            Ghost(c),
            Ghost(j),
        ) {
            Err(e) => {
                proof {
                    if ok {
                        zip.lemma_bytes();
                        lemma_size_floor(zip@);
                        lemma_insert_size(
                            zip@,
                            if left {
                                0
                            } else {
                                zip@.len() as int
                            },
                            if left {
                                old_part[0]
                            } else {
                                old_part.last()
                            },
                        );
                        if left {
                            assert(seq![old_part[0]] + zip@ =~= old_part);
                        } else {
                            assert(zip@.push(old_part.last()) =~= old_part);
                        }
                    }
                }
                return Err(e);
            },
            Ok(_) => {},
        }
        let ghost m2 = tr@;
        match tr.put(list_key, self.as_ref()) {
            Err(e) => {
                return Err(e);
            },
            Ok(_) => {},
        }
        proof {
            if ok {
                self.lemma_len();
                let c2 = if zip@.len() == 0 {
                    chain_without(c, j)
                } else {
                    Chain { parts: c.parts.update(j, zip@), ..c }
                };
                lemma_put_head(m2, k, self@, c2, self.bytes());
                lemma_same_outside_put(m, m2, chain_keys_of(k, c), k, self.bytes());
                lemma_gone_put(
                    m2,
                    chain_keys_of(k, c),
                    chain_keys_of(k, c2),
                    k,
                    self.bytes(),
                );
            }
        }
        Ok(Some(value))
    }

    /// Walks from the left end to the node that holds the value at place
    /// `index`. Returns the key and the record of that node, and the
    /// place that the value has in it.
    pub fn seek<T: WrapDb>(
        &self,
        tr: &T,
        index: LenType,
        Ghost(list_key): Ghost<Seq<u8>>,
        Ghost(c): Ghost<Chain>,
    ) -> (r: Result<(MetaKey, QuickListNode, LenType), RrError>)
        requires
            tr.wf(),
        ensures
            r is Err && !(r->Err_0 is Message) ==> !tr.reliable(),
            r matches Ok((key, node, local)) ==> node_at(tr@, key@) == Some(node@) && local
                < node@.len_list,
            r matches Ok((key, node, local)) ==> seek_node(
                tr@,
                self@.left,
                self@.len_node,
                index as int,
            ) == Some((key@, local as int)),
            r is Err && r->Err_0 is Message ==> seek_node(
                tr@,
                self@.left,
                self@.len_node,
                index as int,
            ) is None,
            chain_ok(tr@, list_key, self@, c) && index < self@.len_list ==> match r {
                Ok((key, node, local)) => {
                    let j = node_index(c.parts, index as int);
                    &&& 0 <= j < c.keys.len()
                    &&& key@ == c.keys[j]
                    &&& local == index - values_before(c.parts, j)
                    &&& 0 <= local < c.parts[j].len()
                },
                Err(e) => !(e is Message),
            },
    {
        let ghost m = tr@;
        let ghost h = self@;
        let ghost n = c.keys.len() as int;
        let ghost ok = chain_ok(m, list_key, h, c) && index < h.len_list;
        let ghost found = seek_node(m, h.left, h.len_node, index as int);
        let mut key = match self.left() {
            Some(k) => k,
            None => {
                proof {
                    if ok {
                        lemma_flatten_split(c.parts, 0);
                    }
                }
                return Err(RrError::none_error("left of quick list"));
            },
        };
        let mut rest: LenType = index;
        let mut steps: LenType = self.len_node();
        let ghost mut j: int = 0;
        proof {
            if ok {
                lemma_flatten_split(c.parts, 0);
                assert(c.parts.take(0).flatten() =~= Seq::<Seq<u8>>::empty());
            }
        }
        loop
            invariant
                tr.wf(),
                m == tr@,
                h == self@,
                n == c.keys.len(),
                ok == (chain_ok(m, list_key, h, c) && index < h.len_list),
                ok ==> 0 <= j < n && key@ == c.keys[j] && steps == n - j && rest == index
                    - values_before(c.parts, j) && rest >= 0,
                found == seek_node(m, h.left, h.len_node, index as int),
                found == seek_node(m, Some(key@), steps as nat, rest as int),
            decreases steps,
        {
            if steps == 0 {
                return Err(RrError::data_error("the list has more nodes than it counts"));
            }
            proof {
                if ok {
                    assert(link_ok(m, c, j));
                    lemma_flatten_split(c.parts, j);
                }
            }
            let node = match QuickListNode::get(tr, key.as_ref()) {
                Err(e) => {
                    return Err(e);
                },
                Ok(None) => {
                    return Err(RrError::none_error("next node"));
                },
                Ok(Some(nd)) => nd,
            };
            proof {
                node.lemma_len();
            }
            if rest < node.len_list() {
                proof {
                    if ok {
                        lemma_node_index(c.parts, index as int, j);
                    }
                }
                return Ok((key, node, rest));
            }
            proof {
                assert(seek_node(
                    m,
                    None,
                    (steps - 1) as nat,
                    rest - node@.len_list,
                ) is None);
            }
            rest = rest - node.len_list();
            key = match node.right() {
                Some(k) => k,
                None => {
                    return Err(RrError::none_error("right node"));
                },
            };
            steps = steps - 1;
            proof {
                j = j + 1;
            }
        }
    }

    /// Reads the packed list of `node`, and holds it to what the record
    /// says of it.
    pub fn node_values<T: WrapDb>(tr: &T, node: &QuickListNode) -> (r: Result<
        (MetaKey, ZipList),
        RrError,
    >)
        requires
            tr.wf(),
        ensures
            match r {
                Ok((zk, zip)) => {
                    &&& node@.values_key == Some(zk@)
                    &&& zip_at(tr@, zk@) == Some(zip@)
                    &&& zip.bytes() == tr@[zk@]
                    &&& zip.wf()
                    &&& zip@.len() == node@.len_list
                    &&& zip.bytes().len() == node@.len_bytes
                    &&& values_sound(tr@, node@)
                },
                Err(e) => if e is Message {
                    !values_sound(tr@, node@) && match node@.values_key {
                        Some(zk) => zip_at(tr@, zk) is None || zip_at(tr@, zk).unwrap().len()
                            != node@.len_list || tr@[zk].len() != node@.len_bytes,
                        None => true,
                    }
                } else {
                    !tr.reliable()
                },
            },
    {
        let zip_key = match node.values_key() {
            Some(zk) => zk,
            None => {
                return Err(RrError::none_error("value key"));
            },
        };
        let zip = match ZipList::get(tr, zip_key.as_ref()) {
            Err(e) => {
                return Err(e);
            },
            Ok(None) => {
                return Err(RrError::none_error("zip list"));
            },
            Ok(Some(z)) => z,
        };
        if zip.len() != node.len_list() || zip.as_ref().len() != node.len_bytes() as usize {
            return Err(RrError::data_error("the node does not describe its packed list"));
        }
        Ok((zip_key, zip))
    }

    /// Walks to the place `index` of the list: returns the key and the
    /// record of the node that holds it, the key and the values of the
    /// node's packed list, and the place that the value has in the node.
    pub fn find_place<T: WrapDb>(
        &self,
        tr: &T,
        index: LenType,
        Ghost(list_key): Ghost<Seq<u8>>,
        Ghost(c): Ghost<Chain>,
    ) -> (r: Result<(MetaKey, QuickListNode, MetaKey, ZipList, LenType), RrError>)
        requires
            tr.wf(),
        ensures
            r is Err && !(r->Err_0 is Message) ==> !tr.reliable(),
            r matches Ok((key, node, zk, zip, local)) ==> {
                &&& node_at(tr@, key@) == Some(node@)
                &&& node@.values_key == Some(zk@)
                &&& zip.wf()
                &&& zip.bytes() == tr@[zk@]
                &&& local < zip@.len()
                &&& local <= i32::MAX
                &&& zip.bytes().len() == node@.len_bytes
                &&& zip@.len() == node@.len_list
                &&& seek_node(tr@, self@.left, self@.len_node, index as int) == Some(
                    (key@, local as int),
                )
                &&& values_sound(tr@, node@)
                &&& zip_at(tr@, zk@) == Some(zip@)
                &&& place_at(tr@, self@, index as int) == Some(zip@[local as int])
            },
            r is Err && r->Err_0 is Message ==> place_at(tr@, self@, index as int) is None,
            chain_ok(tr@, list_key, self@, c) && index < self@.len_list ==> match r {
                Ok((key, node, zk, zip, local)) => {
                    let j = node_index(c.parts, index as int);
                    &&& 0 <= j < c.keys.len()
                    &&& key@ == c.keys[j]
                    &&& zk@ == c.zkeys[j]
                    &&& zip@ == c.parts[j]
                    &&& local == index - values_before(c.parts, j)
                    &&& c.parts.flatten()[index as int] == zip@[local as int]
                },
                Err(e) => !(e is Message),
            },
    {
        let ghost m = tr@;
        let ghost ok = chain_ok(m, list_key, self@, c) && index < self@.len_list;
        let (key, node, local) = match self.seek(tr, index, Ghost(list_key), Ghost(c)) {
            Ok(x) => x,
            Err(e) => {
                return Err(e);
            },
        };
        let ghost j = node_index(c.parts, index as int);
        proof {
            if ok {
                assert(link_ok(m, c, j));
                lemma_node_index(c.parts, index as int, j);
            }
        }
        let (zip_key, zip) = match Self::node_values(tr, &node) {
            Ok(x) => x,
            Err(e) => {
                return Err(e);
            },
        };
        if local > 0x7fff_ffff {
            proof {
                if ok {
                    lemma_flatten_split(c.parts, j);
                }
            }
            return Err(RrError::data_error("the node counts more values than it can hold"));
        }
        Ok((key, node, zip_key, zip, local))
    }

    /// The value at the place that `index` stands for, by `place_of`, in
    /// the list whose head record this is.
    pub fn index<T: WrapDb>(
        &self,
        tr: &T,
        index: i32,
        Ghost(list_key): Ghost<Seq<u8>>,
        Ghost(c): Ghost<Chain>,
    ) -> (r: Result<Vec<u8>, RrError>)
        requires
            tr.wf(),
        ensures
            r is Err && !(r->Err_0 is Message) ==> !tr.reliable(),
            r matches Ok(v) ==> 1 <= self@.len_list <= i32::MAX && place_at(
                tr@,
                self@,
                place_of(self@.len_list as int, index as int),
            ) == Some(v@),
            r is Err && r->Err_0 is Message ==> self@.len_list == 0 || self@.len_list > i32::MAX
                || place_at(tr@, self@, place_of(self@.len_list as int, index as int)) is None,
            chain_ok(tr@, list_key, self@, c) ==> match r {
                Ok(v) => self@.len_list > 0 && v@ == c.parts.flatten()[place_of(
                    self@.len_list as int,
                    index as int,
                )],
                Err(e) => e is Message ==> self@.len_list == 0,
            },
    {
        let len: LenType = self.len_list();
        if len == 0 {
            return Err(RrError::not_find("the index"));
        }
        if len > 0x7fff_ffff {
            return Err(RrError::data_error("the list counts more values than it can hold"));
        }
        let place: LenType = ZipList::count_index(len as i32, index) as LenType;
        let (key, node, zip_key, zip, local) = match self.find_place(
            tr,
            place,
            Ghost(list_key),
            Ghost(c),
        ) {
            Ok(x) => x,
            Err(e) => {
                return Err(e);
            },
        };
        match zip.index(local as i32) {
            Some(v) => Ok(vstd::slice::slice_to_vec(v)),
            None => Err(RrError::data_error("the index")),
        }
    }

    /// Writes the packed list `zip` and the record `node` of node `j`,
    /// which then holds other values, after the record has been given
    /// the new counts.
    fn write_node<T: WrapDb>(
        tr: &mut T,
        key: &MetaKey,
        node: &mut QuickListNode,
        zip_key: &MetaKey,
        zip: &ZipList,
        Ghost(list_key): Ghost<Seq<u8>>,
        Ghost(h): Ghost<QuickListView>,
        Ghost(c): Ghost<Chain>,
        Ghost(j): Ghost<int>,
    ) -> (r: Result<(), RrError>)
        requires
            old(tr).wf(),
            zip.wf(),
            zip@.len() > 0,
        ensures
            final(tr).wf(),
            final(tr).reliable() == old(tr).reliable(),
            r is Err && r->Err_0 is Message ==> final(tr)@ == old(tr)@,
            r is Err && !(r->Err_0 is Message) ==> !old(tr).reliable(),
            r is Err && r->Err_0 is Message ==> zip.bytes().len() > u32::MAX,
            r is Ok ==> zip.bytes().len() <= u32::MAX,
            chain_ok(old(tr)@, list_key, h, c) && 0 <= j < c.keys.len() && key@ == c.keys[j]
                && zip_key@ == c.zkeys[j] && node_at(old(tr)@, key@) == Some(old(node)@) && h.len_list
                - c.parts[j].len() + zip@.len() <= i32::MAX && r is Ok ==> {
                &&& chain_ok(
                    final(tr)@,
                    list_key,
                    QuickListView {
                        len_list: (h.len_list - c.parts[j].len() + zip@.len()) as nat,
                        ..h
                    },
                    Chain { parts: c.parts.update(j, zip@), ..c },
                )
                &&& final(tr)@.contains_key(list_key) == old(tr)@.contains_key(list_key)
                &&& final(tr)@[list_key] == old(tr)@[list_key]
                &&& same_outside(old(tr)@, final(tr)@, chain_keys_of(list_key, c))
            },
    {
        let ghost m = tr@;
        let ghost ok = chain_ok(m, list_key, h, c) && 0 <= j < c.keys.len() && key@ == c.keys[j]
            && zip_key@ == c.zkeys[j] && node_at(m, key@) == Some(node@) && h.len_list
            - c.parts[j].len() + zip@.len() <= i32::MAX;
        if zip.as_ref().len() > u32::MAX as usize {
            return Err(RrError::data_error("the packed list is too long"));
        }
        node.set_len_list(zip.len());
        node.set_len_bytes(zip.as_ref().len() as u32);
        match tr.put(zip_key.as_ref(), zip.as_ref()) {
            Err(e) => {
                return Err(e);
            },
            Ok(_) => {},
        }
        match tr.put(key.as_ref(), node.as_ref()) {
            Err(e) => {
                return Err(e);
            },
            Ok(_) => {},
        }
        proof {
            if ok {
                node.lemma_len();
                zip.lemma_bytes();
                let h2 = QuickListView {
                    len_list: (h.len_list - c.parts[j].len() + zip@.len()) as nat,
                    ..h
                };
                lemma_update_part(m, list_key, h, c, j, zip@, zip.bytes(), node.bytes(), h2);
                assert(c.keys[j] != list_key);
                assert(c.zkeys[j] != list_key);
                lemma_key_set_has(list_key, c, j);
                let s = chain_keys_of(list_key, c);
                let m1 = m.insert(c.zkeys[j], zip.bytes());
                lemma_same_outside_self(m, s);
                lemma_same_outside_put(m, m, s, c.zkeys[j], zip.bytes());
                lemma_same_outside_put(m, m1, s, c.keys[j], node.bytes());
            }
        }
        Ok(())
    }

    /// Puts `value` in the place `index` of the list whose head record
    /// this is, and writes the packed list and the record of the node
    /// that holds the place. Returns the value that was there. A place
    /// that the list does not have is an error, and so is a value that
    /// is too long for a length mark or that would make the packed list
    /// longer than its record can say.
    pub fn set<T: WrapDb>(
        &self,
        tr: &mut T,
        index: i32,
        value: &[u8],
        Ghost(list_key): Ghost<Seq<u8>>,
        Ghost(c): Ghost<Chain>,
    ) -> (r: Result<Vec<u8>, RrError>)
        requires
            old(tr).wf(),
        ensures
            final(tr).wf(),
            final(tr).reliable() == old(tr).reliable(),
            r is Err && r->Err_0 is Message ==> final(tr)@ == old(tr)@,
            r is Err && !(r->Err_0 is Message) ==> !old(tr).reliable(),
            r matches Ok(v) ==> 0 <= index < self@.len_list && value@.len() <= 0xFFFF && place_at(
                old(tr)@,
                self@,
                index as int,
            ) == Some(v@),
            chain_ok(old(tr)@, list_key, self@, c) ==> match r {
                Ok(v) => {
                    let j = node_index(c.parts, index as int);
                    let local = index - values_before(c.parts, j);
                    &&& 0 <= index < self@.len_list
                    &&& value@.len() <= 0xFFFF
                    &&& v@ == c.parts.flatten()[index as int]
                    &&& chain_ok(
                        final(tr)@,
                        list_key,
                        self@,
                        Chain { parts: c.parts.update(j, c.parts[j].update(local, value@)), ..c },
                    )
                    &&& c.parts.update(j, c.parts[j].update(local, value@)).flatten()
                        == c.parts.flatten().update(index as int, value@)
                    &&& final(tr)@.contains_key(list_key) == old(tr)@.contains_key(list_key)
                    &&& final(tr)@[list_key] == old(tr)@[list_key]
                    &&& same_outside(old(tr)@, final(tr)@, chain_keys_of(list_key, c))
                },
                Err(e) => e is Message ==> {
                    let j = node_index(c.parts, index as int);
                    let local = index - values_before(c.parts, j);
                    ||| !(0 <= index < self@.len_list)
                    ||| value@.len() > 0xFFFF
                    ||| list_bytes(c.parts[j].update(local, value@)).len() > u32::MAX
                },
            },
    {
        let ghost m = tr@;
        let ghost h = self@;
        let ghost ok = chain_ok(m, list_key, h, c);
        let len: LenType = self.len_list();
        if index < 0 || index as u32 >= len {
            return Err(RrError::not_find("the index"));
        }
        if value.len() > MAX_VALUE_BYTES {
            return Err(RrError::data_error("the value is too long"));
        }
        let (key, node, zip_key, zip, local) = match self.find_place(
            tr,
            index as u32,
            Ghost(list_key),
            Ghost(c),
        ) {
            Ok(x) => x,
            Err(e) => {
                return Err(e);
            },
        };
        let ghost j = node_index(c.parts, index as int);
        let mut zip = zip;
        let mut node = node;
        let old_value: Vec<u8> = match zip.set(local as i32, value) {
            Some(v) => v,
            None => {
                return Err(RrError::data_error("the index"));
            },
        };
        proof {
            zip.lemma_bytes();
            if ok {
                lemma_set_values(c.parts, j, local as int, value@);
            }
        }
        match Self::write_node(
            tr,
            &key,
            &mut node,
            &zip_key,
            &zip,
            Ghost(list_key),
            Ghost(h),
            Ghost(c),
            Ghost(j),
        ) {
            Err(e) => {
                return Err(e);
            },
            Ok(_) => {},
        }
        Ok(old_value)
    }

    /// The values of the list between the places that `start` and `stop`
    /// stand for, by `place_of`, both included. Of each node the walk
    /// reads no more than the part that falls into the range, and it
    /// ends with the node that holds the last place.
    pub fn range<T: WrapDb>(
        &self,
        tr: &T,
        start: i32,
        stop: i32,
        Ghost(list_key): Ghost<Seq<u8>>,
        Ghost(c): Ghost<Chain>,
    ) -> (r: Result<Vec<Vec<u8>>, RrError>)
        requires
            tr.wf(),
        ensures
            r is Err && !(r->Err_0 is Message) ==> !tr.reliable(),
            self@.len_list > i32::MAX ==> r is Err,
            r is Ok && 1 <= self@.len_list && place_of(self@.len_list as int, start as int)
                <= place_of(self@.len_list as int, stop as int) ==> end_node_at(
                tr@,
                self@,
                true,
            ) is Some && (place_of(self@.len_list as int, start as int) < end_node_at(
                tr@,
                self@,
                true,
            ).unwrap().len_list ==> values_sound(tr@, end_node_at(tr@, self@, true).unwrap())),
            chain_ok(tr@, list_key, self@, c) ==> match r {
                Ok(v) => views(v@) == list_range(c.parts.flatten(), start as int, stop as int),
                Err(e) => !(e is Message),
            },
    {
        let ghost m = tr@;
        let ghost h = self@;
        let ghost n = c.keys.len() as int;
        let ghost ok = chain_ok(m, list_key, h, c);
        let ghost values = c.parts.flatten();
        let mut result: Vec<Vec<u8>> = Vec::new();
        let len: LenType = self.len_list();
        if len < 1 {
            assert(views(result@) =~= Seq::<Seq<u8>>::empty());
            return Ok(result);
        }
        if len > 0x7fff_ffff {
            return Err(RrError::data_error("the list counts more values than it can hold"));
        }
        let start_index: u64 = ZipList::count_index(len as i32, start) as u64;
        let stop_index: u64 = ZipList::count_index(len as i32, stop) as u64;
        if start_index > stop_index {
            assert(views(result@) =~= Seq::<Seq<u8>>::empty());
            return Ok(result);
        }
        let ghost s = start_index as int;
        let ghost e = stop_index as int;
        let mut key = match self.left() {
            Some(k) => k,
            None => {
                proof {
                    if ok {
                        lemma_flatten_split(c.parts, 0);
                    }
                }
                return Err(RrError::none_error("left key"));
            },
        };
        let mut offset: u64 = 0;
        let mut steps: LenType = self.len_node();
        let ghost mut j: int = 0;
        let ghost mut seen: bool = false;
        proof {
            if ok {
                lemma_flatten_split(c.parts, 0);
                assert(c.parts.take(0).flatten() =~= Seq::<Seq<u8>>::empty());
                assert(views(result@) =~= values.subrange(s, clamp(0, s, e + 1)));
            }
        }
        loop
            invariant
                tr.wf(),
                m == tr@,
                h == self@,
                n == c.keys.len(),
                values == c.parts.flatten(),
                ok == chain_ok(m, list_key, h, c),
                s == start_index,
                e == stop_index,
                0 <= s <= e < len,
                len == h.len_list,
                len <= i32::MAX,
                offset <= e,
                !seen ==> offset == 0 && h.left == Some(key@),
                s == place_of(h.len_list as int, start as int),
                seen ==> end_node_at(m, h, true) is Some && (s < end_node_at(
                    m,
                    h,
                    true,
                ).unwrap().len_list ==> values_sound(m, end_node_at(m, h, true).unwrap())),
                ok ==> 0 <= j < n && key@ == c.keys[j] && steps == n - j && offset
                    == values_before(c.parts, j) && views(result@) == values.subrange(
                    s,
                    clamp(offset as int, s, e + 1),
                ),
                ok ==> list_range(values, start as int, stop as int) == values.subrange(s, e + 1),
            decreases steps,
        {
            if steps == 0 {
                return Err(RrError::data_error("the list has more nodes than it counts"));
            }
            proof {
                if ok {
                    assert(link_ok(m, c, j));
                    lemma_flatten_split(c.parts, j);
                    lemma_range_step(c.parts, j, s, e);
                }
            }
            let node = match QuickListNode::get(tr, key.as_ref()) {
                Err(e) => {
                    return Err(e);
                },
                Ok(None) => {
                    return Err(RrError::none_error("quick list node"));
                },
                Ok(Some(nd)) => nd,
            };
            let len_zip: LenType = node.len_list();
            if start_index < offset + len_zip as u64 {
                match ZipList::count_in_index(
                    len_zip,
                    offset as usize,
                    start_index as usize,
                    stop_index as usize,
                ) {
                    Some((start_in, stop_in)) => {
                        let (zip_key, zip) = match Self::node_values(tr, &node) {
                            Ok(x) => x,
                            Err(e) => {
                                return Err(e);
                            },
                        };
                        let mut one = zip.range(start_in as i32, stop_in as i32);
                        let ghost before = result@;
                        let ghost added = one@;
                        result.append(&mut one);
                        assert(views(result@) =~= views(before) + views(added));
                    },
                    None => {},
                }
            }
            proof {
                node.lemma_len();
                seen = true;
            }
            if stop_index < offset + len_zip as u64 {
                return Ok(result);
            }
            key = match node.right() {
                Some(k) => k,
                None => {
                    return Err(RrError::none_error("quick list node"));
                },
            };
            offset = offset + len_zip as u64;
            steps = steps - 1;
            proof {
                j = j + 1;
            }
        }
    }

    /// Puts `value` before or behind the first value of the list that is
    /// `pivot`, and writes the records that change: the packed list and
    /// the record of the node that holds the pivot, and the head record.
    /// Returns the new count of values, or -1, with nothing written,
    /// where no value is `pivot`. A value too long for a length mark, a
    /// full list and a packed list that would grow beyond what its record
    /// can say are errors where there is a pivot, and only there.
    pub fn list_insert<T: WrapDb>(
        &mut self,
        tr: &mut T,
        list_key: &[u8],
        pivot: &[u8],
        value: &[u8],
        before: bool,
        Ghost(c): Ghost<Chain>,
    ) -> (r: Result<i32, RrError>)
        requires
            old(tr).wf(),
        ensures
            final(tr).wf(),
            final(tr).reliable() == old(tr).reliable(),
            later_counter(old(self)@.meta_key, final(self)@.meta_key),
            r is Ok && old(self)@.len_node != 0 ==> end_sound(old(tr)@, old(self)@, true),
            r is Err && r->Err_0 is Message ==> final(tr)@ == old(tr)@,
            r is Err && !(r->Err_0 is Message) ==> !old(tr).reliable(),
            chain_ok(old(tr)@, list_key@, old(self)@, c) ==> ({
                let values = c.parts.flatten();
                let i = first_index(values, pivot@);
                let j = node_index(c.parts, i);
                let at = if before {
                    i
                } else {
                    i + 1
                };
                let part = c.parts[j].insert(at - values_before(c.parts, j), value@);
                match r {
                    Ok(n) => if has_value(values, pivot@) {
                        &&& n == values.len() + 1
                        &&& head_at(final(tr)@, list_key@) == Some(final(self)@)
                        &&& list_wf(final(tr)@, list_key@)
                        &&& list_parts(final(tr)@, list_key@) == c.parts.update(j, part)
                        &&& c.parts.update(j, part).flatten() == values.insert(at, value@)
                        &&& value@.len() <= 0xFFFF
                        &&& values.len() < i32::MAX
                        &&& list_bytes(part).len() <= u32::MAX
                        &&& same_outside(old(tr)@, final(tr)@, chain_keys_of(list_key@, c))
                        &&& list_keys(final(tr)@, list_key@) == chain_keys_of(list_key@, c)
                    } else {
                        &&& n == -1
                        &&& final(tr)@ == old(tr)@
                    },
                    Err(e) => e is Message ==> has_value(values, pivot@) && {
                        ||| value@.len() > 0xFFFF
                        ||| values.len() >= i32::MAX
                        ||| list_bytes(part).len() > u32::MAX
                    },
                }
            }),
    {
        let ghost m = tr@;
        let ghost h = self@;
        let ghost k = list_key@;
        let ghost n = c.keys.len() as int;
        let ghost ok = chain_ok(m, k, h, c);
        let ghost values = c.parts.flatten();
        let len: LenType = self.len_list();
        let fits: bool = value.len() <= MAX_VALUE_BYTES && len < 0x7fff_ffff;
        let mut steps: LenType = self.len_node();
        if steps == 0 {
            return Ok(-1);
        }
        let mut key = match self.left() {
            Some(lk) => lk,
            None => {
                return Err(RrError::none_error("left key"));
            },
        };
        let ghost mut j: int = 0;
        let ghost mut seen: bool = false;
        proof {
            if ok {
                lemma_flatten_split(c.parts, 0);
                assert(c.parts.take(0).flatten() =~= Seq::<Seq<u8>>::empty());
            }
        }
        loop
            invariant
                tr.wf(),
                m == tr@,
                h == self@,
                k == list_key@,
                n == c.keys.len(),
                values == c.parts.flatten(),
                ok == chain_ok(m, k, h, c),
                old(tr).reliable() == tr.reliable(),
                old(tr)@ == m,
                old(self)@ == h,
                len == h.len_list,
                fits == (value@.len() <= 0xFFFF && len < i32::MAX),
                h.len_node != 0,
                !seen ==> h.left == Some(key@),
                seen ==> end_sound(m, h, true),
                ok ==> 0 <= j < n && key@ == c.keys[j] && steps == n - j,
                ok ==> forall|x: int| 0 <= x < values_before(c.parts, j) ==> values[x] != pivot@,
            decreases steps,
        {
            if steps == 0 {
                return Err(RrError::data_error("the list has more nodes than it counts"));
            }
            proof {
                if ok {
                    assert(link_ok(m, c, j));
                    lemma_flatten_split(c.parts, j);
                }
            }
            let node = match QuickListNode::get(tr, key.as_ref()) {
                Err(e) => {
                    return Err(e);
                },
                Ok(None) => {
                    return Err(RrError::none_error("right node"));
                },
                Ok(Some(nd)) => nd,
            };
            let (zip_key, zip) = match Self::node_values(tr, &node) {
                Ok(x) => x,
                Err(e) => {
                    return Err(e);
                },
            };
            proof {
                node.lemma_len();
                if !seen {
                    assert(end_node_at(m, h, true) == Some(node@));
                }
                seen = true;
            }
            let mut zip = zip;
            let mut node = node;
            let found: Option<i32> = if !fits {
                // the limits count only where there is a pivot
                match zip.find(pivot) {
                    Some(local) => {
                        proof {
                            if ok {
                                lemma_first_in_node(c.parts, j, local as int, pivot@);
                            }
                        }
                        if value.len() > MAX_VALUE_BYTES {
                            return Err(RrError::data_error("the value is too long"));
                        }
                        return Err(RrError::data_error("the list is full"));
                    },
                    None => None,
                }
            } else if zip.len() >= 0x7fff_ffff {
                return Err(RrError::data_error("the node counts more values than it can hold"));
            } else if before {
                zip.insert_value_left(pivot, value)
            } else {
                zip.insert_value_right(pivot, value)
            };
            match found {
                Some(place) => {
                    proof {
                        zip.lemma_bytes();
                        if ok {
                            lemma_first_in_node(
                                c.parts,
                                j,
                                if before {
                                    place as int
                                } else {
                                    place - 1
                                },
                                pivot@,
                            );
                            lemma_insert_values(c.parts, j, place as int, value@);
                        }
                    }
                    match Self::write_node(
                        tr,
                        &key,
                        &mut node,
                        &zip_key,
                        &zip,
                        Ghost(k),
                        Ghost(h),
                        Ghost(c),
                        Ghost(j),
                    ) {
                        Err(e) => {
                            return Err(e);
                        },
                        Ok(_) => {},
                    }
                    self.set_len_list(len + 1);
                    let ghost m2 = tr@;
                    match tr.put(list_key, self.as_ref()) {
                        Err(e) => {
                            return Err(e);
                        },
                        Ok(_) => {},
                    }
                    proof {
                        if ok {
                            self.lemma_len();
                            lemma_put_head(
                                m2,
                                k,
                                self@,
                                Chain { parts: c.parts.update(j, zip@), ..c },
                                self.bytes(),
                            );
                            lemma_key_set_has(k, c, j);
                            lemma_key_set_less(k, c, j, c.parts.update(j, zip@));
                            lemma_same_outside_put(m, m2, chain_keys_of(k, c), k, self.bytes());
                        }
                    }
                    return Ok((len + 1) as i32);
                },
                None => {
                    proof {
                        if ok {
                            lemma_none_in_node(c.parts, j, pivot@);
                        }
                    }
                    key = match node.right() {
                        Some(rk) => rk,
                        None => {
                            return Ok(-1);
                        },
                    };
                    steps = steps - 1;
                    proof {
                        j = j + 1;
                    }
                },
            }
        }
    }

    /// Deletes the list whose head record this is: walks from the last
    /// node to the first, deletes each node's packed list and record, and
    /// then the head record. Returns how many nodes the list had. A walk
    /// that finds more nodes or fewer than the head counts is an error.
    pub fn clear<T: WrapDb>(
        &mut self,
        tr: &mut T,
        list_key: &[u8],
        Ghost(c): Ghost<Chain>,
    ) -> (r: Result<i32, RrError>)
        requires
            old(tr).wf(),
        ensures
            final(tr).wf(),
            final(tr).reliable() == old(tr).reliable(),
            later_counter(old(self)@.meta_key, final(self)@.meta_key),
            r is Ok && old(self)@.len_node != 0 ==> end_node_at(
                old(tr)@,
                old(self)@,
                false,
            ) is Some,
            r is Err && !(r->Err_0 is Message) ==> !old(tr).reliable(),
            chain_ok(old(tr)@, list_key@, old(self)@, c) ==> match r {
                Ok(n) => n == old(self)@.len_node && final(tr)@ == store_cleared(
                    old(tr)@,
                    list_key@,
                    c,
                ) && !final(tr)@.contains_key(list_key@),
                Err(e) => !(e is Message),
            },
    {
        let ghost m = tr@;
        let ghost h = self@;
        let ghost k = list_key@;
        let ghost n = c.keys.len() as int;
        let ghost ok = chain_ok(m, k, h, c);
        let l: LenType = self.len_node();
        if l > 0x7fff_ffff {
            proof {
                if ok {
                    lemma_chain_count(m, k, h, c);
                }
            }
            return Err(RrError::data_error("the list counts more nodes than it can hold"));
        }
        let mut node_key: Option<MetaKey> = self.right();
        let mut steps: LenType = l;
        let ghost mut j: int = n - 1;
        let ghost mut seen: bool = false;
        proof {
            if ok && n > 0 {
                lemma_key_set_step(m, c, 0);
            }
            assert(m.remove_keys(chain_key_set(c, n)) =~= m);
        }
        loop
            invariant
                tr.wf(),
                old(tr).reliable() == tr.reliable(),
                m == old(tr)@,
                h == old(self)@,
                k == list_key@,
                n == c.keys.len(),
                ok == chain_ok(m, k, h, c),
                l == h.len_node,
                !seen ==> tr@ == m && steps == l && (match node_key {
                    Some(nk) => h.right == Some(nk@),
                    None => h.right is None,
                }),
                seen ==> end_node_at(m, h, false) is Some,
                ok ==> -1 <= j < n && steps == j + 1 && tr@ == m.remove_keys(
                    chain_key_set(c, j + 1),
                ) && (j < 0 ==> node_key is None) && (j >= 0 ==> node_key is Some
                    && node_key.unwrap()@ == c.keys[j]),
            ensures
                ok ==> tr@ == m.remove_keys(chain_key_set(c, 0)),
                l != 0 ==> end_node_at(m, h, false) is Some,
            decreases steps,
        {
            let key = match node_key {
                Some(kk) => kk,
                None => {
                    if steps != 0 {
                        return Err(RrError::data_error("the list has fewer nodes than it counts"));
                    }
                    break ;
                },
            };
            if steps == 0 {
                return Err(RrError::data_error("the list has more nodes than it counts"));
            }
            proof {
                if ok {
                    assert(link_ok(m, c, j));
                    lemma_key_set_apart(k, c, j + 1, j);
                    lemma_key_set_step(m, c, j);
                    if j > 0 {
                        assert(link_ok(m, c, j - 1));
                    }
                }
            }
            let node = match QuickListNode::get(tr, key.as_ref()) {
                Err(e) => {
                    return Err(e);
                },
                Ok(None) => {
                    return Err(RrError::none_error("node"));
                },
                Ok(Some(nd)) => nd,
            };
            proof {
                node.lemma_len();
                seen = true;
            }
            let value_key = match node.values_key() {
                Some(vk) => vk,
                None => {
                    return Err(RrError::none_error("value key"));
                },
            };
            match tr.delete(value_key.as_ref()) {
                Err(e) => {
                    return Err(e);
                },
                Ok(_) => {},
            }
            match tr.delete(key.as_ref()) {
                Err(e) => {
                    return Err(e);
                },
                Ok(_) => {},
            }
            node_key = node.left();
            steps = steps - 1;
            proof {
                j = j - 1;
            }
        }
        match tr.delete(list_key) {
            Err(e) => {
                return Err(e);
            },
            Ok(_) => {},
        }
        Ok(l as i32)
    }

    /// Writes what has changed of the node under `node_key` after values
    /// have left its packed list `zip`: the packed list and the record
    /// with its new counts or, where no value is left, what `drain_node`
    /// writes, which takes the node out of the list. The head record
    /// counts the values off; it is not written.
    pub fn modify_node<T: WrapDb>(
        &mut self,
        tr: &mut T,
        zip_key: &MetaKey,
        zip: &ZipList,
        node_key: &MetaKey,
        node: &mut QuickListNode,
        Ghost(list_key): Ghost<Seq<u8>>,
        Ghost(c): Ghost<Chain>,
        Ghost(j): Ghost<int>,
    ) -> (r: Result<(), RrError>)
        requires
            old(tr).wf(),
            zip.wf(),
        ensures
            final(tr).wf(),
            final(tr).reliable() == old(tr).reliable(),
            later_counter(old(self)@.meta_key, final(self)@.meta_key),
            r is Err && r->Err_0 is Message ==> final(tr)@ == old(tr)@,
            r is Err && !(r->Err_0 is Message) ==> !old(tr).reliable(),
            chain_ok(old(tr)@, list_key, old(self)@, c) && 0 <= j < c.keys.len() && node_key@
                == c.keys[j] && node_at(old(tr)@, c.keys[j]) == Some(old(node)@) && zip_key@
                == c.zkeys[j] && zip@.len() <= c.parts[j].len() ==> match r {
                Ok(_) => {
                    &&& chain_ok(
                        final(tr)@,
                        list_key,
                        final(self)@,
                        if zip@.len() == 0 {
                            chain_without(c, j)
                        } else {
                            Chain { parts: c.parts.update(j, zip@), ..c }
                        },
                    )
                    &&& final(self)@.len_list == old(self)@.len_list - (c.parts[j].len()
                        - zip@.len())
                    &&& final(self)@.meta_key == old(self)@.meta_key
                    &&& final(tr)@.contains_key(list_key) == old(tr)@.contains_key(list_key)
                    &&& same_outside(old(tr)@, final(tr)@, chain_keys_of(list_key, c))
                    &&& keys_gone(
                        final(tr)@,
                        chain_keys_of(list_key, c),
                        chain_keys_of(
                            list_key,
                            if zip@.len() == 0 {
                                chain_without(c, j)
                            } else {
                                Chain { parts: c.parts.update(j, zip@), ..c }
                            },
                        ),
                    )
                    &&& zip@.len() == 0 ==> !final(tr)@.contains_key(c.keys[j])
                        && !final(tr)@.contains_key(c.zkeys[j])
                },
                Err(e) => e is Message ==> zip.bytes().len() > u32::MAX,
            },
    {
        let ghost m = tr@;
        let ghost h = self@;
        let ghost ok = chain_ok(m, list_key, h, c) && 0 <= j < c.keys.len() && node_key@
            == c.keys[j] && node_at(m, c.keys[j]) == Some(node@) && zip_key@ == c.zkeys[j]
            && zip@.len() <= c.parts[j].len();
        proof {
            if ok {
                assert(link_ok(m, c, j));
                lemma_flatten_split(c.parts, j);
            }
        }
        let before: LenType = node.len_list();
        let after: LenType = zip.len();
        let len: LenType = self.len_list();
        if after > before || len < before - after {
            return Err(RrError::data_error("the head counts less than the list holds"));
        }
        if after == 0 {
            self.drain_node(tr, node_key, node, zip_key, Ghost(list_key), Ghost(c), Ghost(j))
        } else {
            match Self::write_node(
                tr,
                node_key,
                node,
                zip_key,
                zip,
                Ghost(list_key),
                Ghost(h),
                Ghost(c),
                Ghost(j),
            ) {
                Err(e) => {
                    return Err(e);
                },
                Ok(_) => {},
            }
            self.set_len_list(len - (before - after));
            proof {
                if ok {
                    lemma_key_set_less(list_key, c, j, c.parts.update(j, zip@));
                    lemma_gone_none(
                        tr@,
                        chain_keys_of(list_key, c),
                        chain_keys_of(list_key, Chain { parts: c.parts.update(j, zip@), ..c }),
                    );
                }
            }
            Ok(())
        }
    }

    /// Removes values that are `value` from the node under `key`, as
    /// many as `want` asks for, and writes what changes: the node's
    /// packed list and record, or, where the node loses all its values,
    /// what `drain_node` writes. The head record counts the values off;
    /// it is not written. Returns how many values the node lost, and the
    /// key of the next node of the walk.
    pub fn rem_node<T: WrapDb>(
        &mut self,
        tr: &mut T,
        key: &MetaKey,
        want: i32,
        value: &[u8],
        forward: bool,
        Ghost(list_key): Ghost<Seq<u8>>,
        Ghost(cur): Ghost<Chain>,
        Ghost(jj): Ghost<int>,
    ) -> (r: Result<(LenType, Option<MetaKey>), RrError>)
        requires
            old(tr).wf(),
        ensures
            final(tr).wf(),
            final(tr).reliable() == old(tr).reliable(),
            later_counter(old(self)@.meta_key, final(self)@.meta_key),
            r is Ok ==> node_at(old(tr)@, key@) is Some && values_sound(
                old(tr)@,
                node_at(old(tr)@, key@).unwrap(),
            ),
            r is Err && !(r->Err_0 is Message) ==> !old(tr).reliable(),
            chain_ok(old(tr)@, list_key, old(self)@, cur) && 0 <= jj < cur.keys.len() && key@
                == cur.keys[jj] ==> match r {
                Ok((done, next)) => {
                    let kept = rem_values(cur.parts[jj], value@, want as int);
                    let cur2 = if done == 0 {
                        cur
                    } else if kept.len() > 0 {
                        Chain { parts: cur.parts.update(jj, kept), ..cur }
                    } else {
                        chain_without(cur, jj)
                    };
                    &&& done == cur.parts[jj].len() - kept.len()
                    &&& chain_ok(final(tr)@, list_key, final(self)@, cur2)
                    &&& final(self)@.len_list == old(self)@.len_list - done
                    &&& match next {
                        Some(nk) => if forward {
                            jj + 1 < cur.keys.len() && nk@ == cur.keys[jj + 1]
                        } else {
                            jj > 0 && nk@ == cur.keys[jj - 1]
                        },
                        None => if forward {
                            jj == cur.keys.len() - 1
                        } else {
                            jj == 0
                        },
                    }
                    &&& done == 0 ==> final(tr)@ == old(tr)@ && final(self)@ == old(self)@
                    &&& same_outside(old(tr)@, final(tr)@, chain_keys_of(list_key, cur))
                    &&& chain_keys_of(list_key, cur2).subset_of(chain_keys_of(list_key, cur))
                    &&& keys_gone(
                        final(tr)@,
                        chain_keys_of(list_key, cur),
                        chain_keys_of(list_key, cur2),
                    )
                },
                Err(e) => !(e is Message),
            },
    {
        let ghost m = tr@;
        let ghost h = self@;
        let ghost ok = chain_ok(m, list_key, h, cur) && 0 <= jj < cur.keys.len() && key@
            == cur.keys[jj];
        proof {
            if ok {
                assert(link_ok(m, cur, jj));
                lemma_flatten_split(cur.parts, jj);
                lemma_list_bytes_parse(m[cur.zkeys[jj]]);
                lemma_rem_size(cur.parts[jj], value@, want as int);
                lemma_key_set_less(
                    list_key,
                    cur,
                    jj,
                    cur.parts.update(jj, rem_values(cur.parts[jj], value@, want as int)),
                );
            }
        }
        let node = match QuickListNode::get(tr, key.as_ref()) {
            Err(e) => {
                return Err(e);
            },
            Ok(None) => {
                return Err(RrError::none_error("node"));
            },
            Ok(Some(nd)) => nd,
        };
        proof {
            node.lemma_len();
        }
        let (zip_key, zip) = match Self::node_values(tr, &node) {
            Ok(x) => x,
            Err(e) => {
                return Err(e);
            },
        };
        let mut zip = zip;
        let mut node = node;
        let done: LenType = zip.rem(want, value);
        let next: Option<MetaKey> = if forward {
            node.right()
        } else {
            node.left()
        };
        if done > 0 {
            proof {
                zip.lemma_bytes();
                lemma_rem_count(cur.parts[jj], value@, want as int);
            }
            match self.modify_node(
                tr,
                &zip_key,
                &zip,
                key,
                &mut node,
                Ghost(list_key),
                Ghost(cur),
                Ghost(jj),
            ) {
                Err(e) => {
                    return Err(e);
                },
                Ok(_) => {},
            }
        }
        proof {
            lemma_same_outside_self(m, chain_keys_of(list_key, cur));
            if done == 0 {
                lemma_gone_none(
                    tr@,
                    chain_keys_of(list_key, cur),
                    chain_keys_of(list_key, cur),
                );
            }
        }
        Ok((done, next))
    }

    /// Removes values that are `value` from the list whose head record
    /// this is: for a positive `count` the first `count` of them, walking
    /// from the first node to the last; for a negative one the last
    /// `-count`, walking from the last node to the first; for 0 all. A
    /// node that loses all its values leaves the list. The head record is
    /// written once, at the end, if anything was removed. Returns how
    /// many values were removed.
    pub fn rem<T: WrapDb>(
        &mut self,
        tr: &mut T,
        list_key: &[u8],
        count: i32,
        value: &[u8],
        Ghost(c): Ghost<Chain>,
    ) -> (r: Result<LenType, RrError>)
        requires
            old(tr).wf(),
        ensures
            final(tr).wf(),
            final(tr).reliable() == old(tr).reliable(),
            later_counter(old(self)@.meta_key, final(self)@.meta_key),
            r is Ok && old(self)@.len_node != 0 ==> end_sound(old(tr)@, old(self)@, count >= 0),
            r is Err && !(r->Err_0 is Message) ==> !old(tr).reliable(),
            chain_ok(old(tr)@, list_key@, old(self)@, c) ==> match r {
                Ok(removed) => {
                    &&& rem_parts(c.parts, value@, count as int).flatten() == rem_values(
                        c.parts.flatten(),
                        value@,
                        count as int,
                    )
                    &&& removed == c.parts.flatten().len() - rem_values(
                        c.parts.flatten(),
                        value@,
                        count as int,
                    ).len()
                    &&& same_outside(old(tr)@, final(tr)@, chain_keys_of(list_key@, c))
                    &&& if removed == 0 {
                        &&& final(tr)@ == old(tr)@
                        &&& final(self)@ == old(self)@
                        &&& rem_parts(c.parts, value@, count as int) == c.parts
                    } else {
                        &&& head_at(final(tr)@, list_key@) == Some(final(self)@)
                        &&& list_wf(final(tr)@, list_key@)
                        &&& keys_gone(
                            final(tr)@,
                            chain_keys_of(list_key@, c),
                            list_keys(final(tr)@, list_key@),
                        )
                        &&& list_parts(final(tr)@, list_key@) == rem_parts(
                            c.parts,
                            value@,
                            count as int,
                        )
                    }
                },
                Err(e) => !(e is Message),
            },
    {
        let ghost m = tr@;
        let ghost h = self@;
        let ghost k = list_key@;
        let ghost v = value@;
        let ghost n = c.keys.len() as int;
        let ghost ok = chain_ok(m, k, h, c);
        let ghost goal = rem_parts(c.parts, v, count as int);
        proof {
            lemma_rem_parts(c.parts, v, count as int);
        }
        let forward: bool = count >= 0;
        let mut steps: LenType = self.len_node();
        if steps == 0 {
            proof {
                if ok {
                    lemma_chain_count(m, k, h, c);
                    assert(c.parts =~= Seq::<Seq<Seq<u8>>>::empty());
                    lemma_same_outside_self(m, chain_keys_of(k, c));
                }
            }
            return Ok(0);
        }
        let end = if forward {
            self.left()
        } else {
            self.right()
        };
        let mut key = match end {
            Some(ek) => ek,
            None => {
                return Err(RrError::none_error("left key"));
            },
        };
        let mut removed: LenType = 0;
        let ghost mut cur: Chain = c;
        let ghost mut i: int = if forward {
            0
        } else {
            n - 1
        };
        let ghost mut jj: int = i;
        let ghost mut seen: bool = false;
        proof {
            if ok {
                lemma_chain_count(m, k, h, c);
                lemma_rem_walk_start(c, v, count as int);
                lemma_same_outside_self(m, chain_keys_of(k, c));
                lemma_gone_none(m, chain_keys_of(k, c), chain_keys_of(k, c));
            }
        }
        loop
            invariant_except_break
                ok ==> rem_walk_inv(c, cur, v, count as int, removed as int, i, jj),
                ok ==> key@ == cur.keys[jj],
                ok ==> steps == (if forward {
                    c.keys.len() - i
                } else {
                    i + 1
                }),
            invariant
                tr.wf(),
                old(tr).reliable() == tr.reliable(),
                m == old(tr)@,
                h == old(self)@,
                k == list_key@,
                v == value@,
                ok == chain_ok(m, k, h, c),
                forward == (count >= 0),
                goal == rem_parts(c.parts, v, count as int),
                ok ==> chain_ok(tr@, k, self@, cur),
                ok ==> removed == h.len_list - self@.len_list,
                ok ==> h.len_list <= i32::MAX,
                ok && removed == 0 ==> tr@ == m && self@ == h && cur == c,
                ok ==> same_outside(m, tr@, chain_keys_of(k, c)),
                ok ==> chain_keys_of(k, cur).subset_of(chain_keys_of(k, c)),
                ok ==> keys_gone(tr@, chain_keys_of(k, c), chain_keys_of(k, cur)),
                later_counter(h.meta_key, self@.meta_key),
                h.len_node != 0,
                !seen ==> tr@ == m && (if forward {
                    h.left
                } else {
                    h.right
                }) == Some(key@),
                seen ==> end_sound(m, h, forward),
            ensures
                end_sound(m, h, forward),
                ok ==> chain_ok(tr@, k, self@, cur),
                ok ==> cur.parts == goal,
                ok ==> removed == h.len_list - self@.len_list,
                ok && removed == 0 ==> tr@ == m && self@ == h && cur == c,
            decreases steps,
        {
            if steps == 0 {
                return Err(RrError::data_error("the list has more nodes than it counts"));
            }
            let want: i32 = if count == 0 {
                0
            } else if forward {
                (count as i64 - removed as i64) as i32
            } else {
                (count as i64 + removed as i64) as i32
            };
            let ghost before = cur;
            let ghost m1 = tr@;
            let (done, next) = match self.rem_node(
                tr,
                &key,
                want,
                value,
                forward,
                Ghost(k),
                Ghost(cur),
                Ghost(jj),
            ) {
                Ok(x) => x,
                Err(e) => {
                    return Err(e);
                },
            };
            proof {
                seen = true;
                if ok {
                    assert(link_ok(m, c, i));
                    lemma_rem_walk(c, before, v, count as int, removed as int, done as int, i, jj);
                    let kept = rem_values(before.parts[jj], v, want as int);
                    cur = chain_after_rem(before, jj, kept, done as int);
                    lemma_same_outside_then(
                        m,
                        m1,
                        tr@,
                        chain_keys_of(k, c),
                        chain_keys_of(k, before),
                    );
                    lemma_gone_then(
                        m1,
                        tr@,
                        chain_keys_of(k, c),
                        chain_keys_of(k, before),
                        chain_keys_of(k, cur),
                    );
                    jj = place_after_rem(count as int, jj, kept, done as int);
                    i = if forward {
                        i + 1
                    } else {
                        i - 1
                    };
                }
            }
            if removed > u32::MAX - done {
                return Err(RrError::data_error("the list counts more values than it can hold"));
            }
            removed = removed + done;
            let stop: bool = count != 0 && (if forward {
                removed as i64 >= count as i64
            } else {
                removed as i64 >= -(count as i64)
            });
            if stop {
                break ;
            }
            key = match next {
                Some(nk) => nk,
                None => {
                    break ;
                },
            };
            steps = steps - 1;
        }
        if removed > 0 {
            let ghost m2 = tr@;
            match tr.put(list_key, self.as_ref()) {
                Err(e) => {
                    return Err(e);
                },
                Ok(_) => {},
            }
            proof {
                if ok {
                    self.lemma_len();
                    lemma_put_head(m2, k, self@, cur, self.bytes());
                    lemma_same_outside_put(m, m2, chain_keys_of(k, c), k, self.bytes());
                    lemma_key_set_has_key(k, cur);
                    lemma_gone_put(
                        m2,
                        chain_keys_of(k, c),
                        chain_keys_of(k, cur),
                        k,
                        self.bytes(),
                    );
                }
            }
        }
        Ok(removed)
    }

    /// Puts `value` before all values of the list. See `push`.
    pub fn lpush<T: WrapDb>(
        &mut self,
        tr: &mut T,
        list_key: &[u8],
        value: &[u8],
        Ghost(c): Ghost<Chain>,
    ) -> (r: Result<i32, RrError>)
        requires
            old(tr).wf(),
        ensures
            final(tr).wf(),
            final(tr).reliable() == old(tr).reliable(),
            later_counter(old(self)@.meta_key, final(self)@.meta_key),
            value@.len() > 0xFFFF || old(self)@.len_list >= i32::MAX ==> r is Err,
            r is Ok && old(self)@.len_node != 0 ==> end_node_at(old(tr)@, old(self)@, true) is Some
                && (record_has_room(end_node_at(old(tr)@, old(self)@, true).unwrap(), value@)
                ==> values_sound(old(tr)@, end_node_at(old(tr)@, old(self)@, true).unwrap())),
            r is Err && r->Err_0 is Message ==> final(tr)@ == old(tr)@,
            r is Err && !(r->Err_0 is Message) ==> !old(tr).reliable(),
            chain_ok(old(tr)@, list_key@, old(self)@, c) ==> match r {
                Ok(n) => {
                    &&& head_at(final(tr)@, list_key@) == Some(final(self)@)
                    &&& list_wf(final(tr)@, list_key@)
                    &&& list_parts(final(tr)@, list_key@) == push_parts(c.parts, value@, true)
                    &&& n == old(self)@.len_list + 1
                    &&& !push_refused(old(self)@, c.parts, list_key@, value@, true)
                    &&& same_outside(old(tr)@, final(tr)@, list_keys(final(tr)@, list_key@))
                    &&& chain_keys_of(list_key@, c).subset_of(list_keys(final(tr)@, list_key@))
                    &&& final(self)@ == push_head(old(self)@, c, value@, true)
                    &&& list_chain(final(tr)@, list_key@) == push_chain(
                        c,
                        old(self)@.meta_key,
                        value@,
                        true,
                    )
                },
                Err(e) => e is Message ==> push_refused(
                    old(self)@,
                    c.parts,
                    list_key@,
                    value@,
                    true,
                ),
            },
    {
        self.push(tr, list_key, value, true, Ghost(c))
    }

    /// Puts `value` behind all values of the list. See `push`.
    pub fn rpush<T: WrapDb>(
        &mut self,
        tr: &mut T,
        list_key: &[u8],
        value: &[u8],
        Ghost(c): Ghost<Chain>,
    ) -> (r: Result<i32, RrError>)
        requires
            old(tr).wf(),
        ensures
            final(tr).wf(),
            final(tr).reliable() == old(tr).reliable(),
            later_counter(old(self)@.meta_key, final(self)@.meta_key),
            value@.len() > 0xFFFF || old(self)@.len_list >= i32::MAX ==> r is Err,
            r is Ok && old(self)@.len_node != 0 ==> end_node_at(old(tr)@, old(self)@, false) is Some
                && (record_has_room(end_node_at(old(tr)@, old(self)@, false).unwrap(), value@)
                ==> values_sound(old(tr)@, end_node_at(old(tr)@, old(self)@, false).unwrap())),
            r is Err && r->Err_0 is Message ==> final(tr)@ == old(tr)@,
            r is Err && !(r->Err_0 is Message) ==> !old(tr).reliable(),
            chain_ok(old(tr)@, list_key@, old(self)@, c) ==> match r {
                Ok(n) => {
                    &&& head_at(final(tr)@, list_key@) == Some(final(self)@)
                    &&& list_wf(final(tr)@, list_key@)
                    &&& list_parts(final(tr)@, list_key@) == push_parts(c.parts, value@, false)
                    &&& n == old(self)@.len_list + 1
                    &&& !push_refused(old(self)@, c.parts, list_key@, value@, false)
                    &&& same_outside(old(tr)@, final(tr)@, list_keys(final(tr)@, list_key@))
                    &&& chain_keys_of(list_key@, c).subset_of(list_keys(final(tr)@, list_key@))
                    &&& final(self)@ == push_head(old(self)@, c, value@, false)
                    &&& list_chain(final(tr)@, list_key@) == push_chain(
                        c,
                        old(self)@.meta_key,
                        value@,
                        false,
                    )
                },
                Err(e) => e is Message ==> push_refused(
                    old(self)@,
                    c.parts,
                    list_key@,
                    value@,
                    false,
                ),
            },
    {
        self.push(tr, list_key, value, false, Ghost(c))
    }
}

} // verus!
