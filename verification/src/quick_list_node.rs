use crate::error::RrError;
use crate::types::{
    key_option, key_raw, le32, le32_bytes, lemma_le32_of_bytes, lemma_splice, LenType, MetaKey,
    read_len_type_at, write_len_type_at,
};
use crate::wrap_db::WrapDb;
use vstd::array::array_as_slice;
use vstd::prelude::*;

verus! {

/// Bytes of a node record.
pub const SIZE_NODE: usize = 44;

/// What a node record says.
pub ghost struct QuickListNodeView {
    /// How many values the node's packed list holds.
    pub len_list: nat,
    /// How many bytes the node's packed list takes.
    pub len_bytes: nat,
    /// The key of the node before this one.
    pub left: Option<Seq<u8>>,
    /// The key of the node behind this one.
    pub right: Option<Seq<u8>>,
    /// The key of the node's packed list.
    pub values_key: Option<Seq<u8>>,
}

/// What the bytes of a node record say.
pub open spec fn node_view(b: Seq<u8>) -> QuickListNodeView {
    QuickListNodeView {
        len_list: le32(b.subrange(0, 4)) as nat,
        len_bytes: le32(b.subrange(4, 8)) as nat,
        left: key_option(b.subrange(8, 18)),
        right: key_option(b.subrange(18, 28)),
        values_key: key_option(b.subrange(28, 38)),
    }
}

/// The record of one node of a list: the size of the node's packed list,
/// the keys of the two neighbours and the key of the packed list.
#[derive(Clone, Copy, Debug)]
pub struct QuickListNode([u8; 44]);

impl View for QuickListNode {
    type V = QuickListNodeView;

    open spec fn view(&self) -> QuickListNodeView {
        node_view(self.bytes())
    }
}

impl QuickListNode {
    /// A push grows a node's packed list to no more values than this.
    pub const MAX_LEN: LenType = 124;

    /// A push grows a node's packed list to no more bytes than this.
    pub const MAX_BYTES: LenType = 496;

    const OFFSET_LEN_BYTES: usize = 4;

    const OFFSET_LEFT: usize = 8;

    const OFFSET_RIGHT: usize = 18;

    const OFFSET_VALUES_KEY: usize = 28;

    /// The record as the store holds it.
    pub closed spec fn bytes(&self) -> Seq<u8> {
        self.0@
    }

    /// A record has 44 bytes.
    pub proof fn lemma_len(&self)
        ensures
            self.bytes().len() == 44,
    {
    }

    /// A record of zero bytes: no values, no neighbours, no packed list.
    pub fn new() -> (r: Self)
        ensures
            r@ == (QuickListNodeView {
                len_list: 0,
                len_bytes: 0,
                left: None,
                right: None,
                values_key: None,
            }),
    {
        let r = QuickListNode([0; 44]);
        proof {
            assert(r.0@.subrange(8, 18) =~= crate::types::no_key_bytes());
            assert(r.0@.subrange(18, 28) =~= crate::types::no_key_bytes());
            assert(r.0@.subrange(28, 38) =~= crate::types::no_key_bytes());
        }
        r
    }

    /// The record that `bytes` are, if they are 44.
    pub fn from_bytes(bytes: &[u8]) -> (r: Option<Self>)
        ensures
            r is Some <==> bytes@.len() == 44,
            r is Some ==> r.unwrap().bytes() == bytes@,
    {
        if bytes.len() != SIZE_NODE {
            return None;
        }
        let mut a: [u8; 44] = [0; 44];
        let mut i: usize = 0;
        while i < SIZE_NODE
            invariant
                i <= 44,
                bytes@.len() == 44,
                forall|j: int| 0 <= j < i ==> a@[j] == bytes@[j],
            decreases 44 - i,
        {
            a[i] = bytes[i];
            i += 1;
        }
        assert(a@ =~= bytes@);
        Some(QuickListNode(a))
    }

    /// Reads the node record under `key`: `None` where the store has no
    /// such key, an error where what it has there is no node record.
    pub fn get<T: WrapDb>(tr: &T, key: &[u8]) -> (r: Result<Option<QuickListNode>, RrError>)
        requires
            tr.wf(),
        ensures
            match r {
                Ok(Some(node)) => tr@.contains_key(key@) && node.bytes() == tr@[key@],
                Ok(None) => !tr@.contains_key(key@),
                Err(e) => if e is Message {
                    tr@.contains_key(key@) && tr@[key@].len() != 44
                } else {
                    !tr.reliable()
                },
            },
    {
        match tr.get(key) {
            Err(e) => Err(e),
            Ok(None) => Ok(None),
            Ok(Some(v)) => match Self::from_bytes(v.as_slice()) {
                Some(node) => Ok(Some(node)),
                None => Err(
                    RrError::message(
                        "can not convert vec to QuickListNode, the len is not eq".to_owned(),
                    ),
                ),
            },
        }
    }

    /// How many values the node's packed list holds.
    pub fn len_list(&self) -> (r: LenType)
        ensures
            r == self@.len_list,
    {
        read_len_type_at(array_as_slice(&self.0), 0)
    }

    /// Sets the count of values.
    pub fn set_len_list(&mut self, len: LenType)
        ensures
            final(self)@ == (QuickListNodeView { len_list: len as nat, ..old(self)@ }),
    {
        write_len_type_at(&mut self.0, 0, len);
        proof {
            let b = old(self).0@;
            let x = le32_bytes(len as int);
            lemma_le32_of_bytes(len as int);
            lemma_splice(b, 0, x, 0, 4);
            lemma_splice(b, 0, x, 4, 4);
            lemma_splice(b, 0, x, 8, 10);
            lemma_splice(b, 0, x, 18, 10);
            lemma_splice(b, 0, x, 28, 10);
        }
    }

    /// How many bytes the node's packed list takes.
    pub fn len_bytes(&self) -> (r: LenType)
        ensures
            r == self@.len_bytes,
    {
        read_len_type_at(array_as_slice(&self.0), Self::OFFSET_LEN_BYTES)
    }

    /// Sets the count of bytes.
    pub fn set_len_bytes(&mut self, len: LenType)
        ensures
            final(self)@ == (QuickListNodeView { len_bytes: len as nat, ..old(self)@ }),
    {
        write_len_type_at(&mut self.0, Self::OFFSET_LEN_BYTES, len);
        proof {
            let b = old(self).0@;
            let x = le32_bytes(len as int);
            lemma_le32_of_bytes(len as int);
            lemma_splice(b, 4, x, 0, 4);
            lemma_splice(b, 4, x, 4, 4);
            lemma_splice(b, 4, x, 8, 10);
            lemma_splice(b, 4, x, 18, 10);
            lemma_splice(b, 4, x, 28, 10);
        }
    }

    /// The key of the node before this one, if there is one.
    pub fn left(&self) -> (r: Option<MetaKey>)
        ensures
            match r {
                Some(k) => self@.left == Some(k@),
                None => self@.left is None,
            },
    {
        MetaKey::read_at(array_as_slice(&self.0), Self::OFFSET_LEFT)
    }

    /// Sets the key of the node before this one.
    pub fn set_left(&mut self, meta_key: &Option<&MetaKey>)
        ensures
            final(self)@ == (QuickListNodeView {
                left: key_option(key_raw(*meta_key)),
                ..old(self)@
            }),
    {
        MetaKey::write_at(&mut self.0, Self::OFFSET_LEFT, meta_key);
        proof {
            let b = old(self).0@;
            let x = key_raw(*meta_key);
            lemma_splice(b, 8, x, 0, 4);
            lemma_splice(b, 8, x, 4, 4);
            lemma_splice(b, 8, x, 8, 10);
            lemma_splice(b, 8, x, 18, 10);
            lemma_splice(b, 8, x, 28, 10);
        }
    }

    /// The key of the node behind this one, if there is one.
    pub fn right(&self) -> (r: Option<MetaKey>)
        ensures
            match r {
                Some(k) => self@.right == Some(k@),
                None => self@.right is None,
            },
    {
        MetaKey::read_at(array_as_slice(&self.0), Self::OFFSET_RIGHT)
    }

    /// Sets the key of the node behind this one.
    pub fn set_right(&mut self, meta_key: &Option<&MetaKey>)
        ensures
            final(self)@ == (QuickListNodeView {
                right: key_option(key_raw(*meta_key)),
                ..old(self)@
            }),
    {
        MetaKey::write_at(&mut self.0, Self::OFFSET_RIGHT, meta_key);
        proof {
            let b = old(self).0@;
            let x = key_raw(*meta_key);
            lemma_splice(b, 18, x, 0, 4);
            lemma_splice(b, 18, x, 4, 4);
            lemma_splice(b, 18, x, 8, 10);
            lemma_splice(b, 18, x, 18, 10);
            lemma_splice(b, 18, x, 28, 10);
        }
    }

    /// The key of the node's packed list, if it has one.
    pub fn values_key(&self) -> (r: Option<MetaKey>)
        ensures
            match r {
                Some(k) => self@.values_key == Some(k@),
                None => self@.values_key is None,
            },
    {
        MetaKey::read_at(array_as_slice(&self.0), Self::OFFSET_VALUES_KEY)
    }

    /// Sets the key of the node's packed list.
    pub fn set_values_key(&mut self, meta_key: &Option<&MetaKey>)
        ensures
            final(self)@ == (QuickListNodeView {
                values_key: key_option(key_raw(*meta_key)),
                ..old(self)@
            }),
    {
        MetaKey::write_at(&mut self.0, Self::OFFSET_VALUES_KEY, meta_key);
        proof {
            let b = old(self).0@;
            let x = key_raw(*meta_key);
            lemma_splice(b, 28, x, 0, 4);
            lemma_splice(b, 28, x, 4, 4);
            lemma_splice(b, 28, x, 8, 10);
            lemma_splice(b, 28, x, 18, 10);
            lemma_splice(b, 28, x, 28, 10);
        }
    }

    /// The record as the store takes it.
    pub fn as_ref(&self) -> (r: &[u8])
        ensures
            r@ == self.bytes(),
    {
        array_as_slice(&self.0)
    }
}

} // verus!
