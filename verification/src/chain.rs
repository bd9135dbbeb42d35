use crate::frame::{chain_keys_of, list_keys};
use crate::quick_list::{head_view, key_hash, QuickListView};
use crate::quick_list_node::{node_view, QuickListNode, QuickListNodeView};
use crate::types::{le16, le16_bytes, MetaKey, no_key_bytes};
use crate::wrap_db::Store;
use crate::zip_list::{first_at, list_bytes, parse_list, place_of, range_values};
use vstd::seq_lib::lemma_flatten_concat;
use vstd::prelude::*;

verus! {

/// A list as its records spell it: the keys of its nodes from the first
/// to the last, beside each the key of its packed list, and the values
/// that this packed list holds.
pub ghost struct Chain {
    /// The keys of the nodes, first to last.
    pub keys: Seq<Seq<u8>>,
    /// The keys of the packed lists, node by node.
    pub zkeys: Seq<Seq<u8>>,
    /// The values, node by node.
    pub parts: Seq<Seq<Seq<u8>>>,
}

/// The head record under `list_key`, if the store has one there.
pub open spec fn head_at(m: Store, list_key: Seq<u8>) -> Option<QuickListView> {
    if m.contains_key(list_key) && m[list_key].len() == 40 {
        Some(head_view(m[list_key]))
    } else {
        None
    }
}

/// The node record under `key`, if the store has one there.
pub open spec fn node_at(m: Store, key: Seq<u8>) -> Option<QuickListNodeView> {
    if m.contains_key(key) && m[key].len() == 44 {
        Some(node_view(m[key]))
    } else {
        None
    }
}

/// The values of the packed list under `key`, if the store has a
/// well-formed one there.
pub open spec fn zip_at(m: Store, key: Seq<u8>) -> Option<Seq<Seq<u8>>> {
    if m.contains_key(key) && m[key].len() >= 4 {
        parse_list(m[key])
    } else {
        None
    }
}

/// Whether `k` is a key that a list with the counter `meta` has minted:
/// it has the list's hash, and a sequence number that the counter has
/// reached.
pub open spec fn minted(meta: Seq<u8>, k: Seq<u8>) -> bool {
    &&& k.len() == 10
    &&& k.subrange(0, 8) == meta.subrange(0, 8)
    &&& 1 <= le16(k.subrange(8, 10)) <= le16(meta.subrange(8, 10))
}

/// Node `i` of the chain is in the store as the chain has it: its record
/// counts the values and the bytes of its packed list and names its two
/// neighbours, and its packed list holds the values and is not empty.
pub open spec fn link_ok(m: Store, c: Chain, i: int) -> bool {
    &&& node_at(m, c.keys[i]) == Some(
        QuickListNodeView {
            len_list: c.parts[i].len(),
            len_bytes: m[c.zkeys[i]].len(),
            left: if i == 0 {
                None
            } else {
                Some(c.keys[i - 1])
            },
            right: if i == c.keys.len() - 1 {
                None
            } else {
                Some(c.keys[i + 1])
            },
            values_key: Some(c.zkeys[i]),
        },
    )
    &&& zip_at(m, c.zkeys[i]) == Some(c.parts[i])
    &&& c.parts[i].len() > 0
}

/// No key of the chain stands twice, and none is the key of the list.
pub open spec fn keys_apart(list_key: Seq<u8>, c: Chain) -> bool {
    &&& forall|i: int, j: int|
        0 <= i < c.keys.len() && 0 <= j < c.keys.len() && i != j ==> #[trigger] c.keys[i]
            != #[trigger] c.keys[j]
    &&& forall|i: int, j: int|
        0 <= i < c.keys.len() && 0 <= j < c.keys.len() && i != j ==> #[trigger] c.zkeys[i]
            != #[trigger] c.zkeys[j]
    &&& forall|i: int, j: int|
        0 <= i < c.keys.len() && 0 <= j < c.keys.len() ==> #[trigger] c.keys[i]
            != #[trigger] c.zkeys[j]
    &&& forall|i: int| 0 <= i < c.keys.len() ==> #[trigger] c.keys[i] != list_key
    &&& forall|i: int| 0 <= i < c.keys.len() ==> #[trigger] c.zkeys[i] != list_key
}

/// Every key of the chain was minted by the list.
pub open spec fn keys_minted(meta: Seq<u8>, c: Chain) -> bool {
    &&& forall|i: int| 0 <= i < c.keys.len() ==> minted(meta, #[trigger] c.keys[i])
    &&& forall|i: int| 0 <= i < c.keys.len() ==> minted(meta, #[trigger] c.zkeys[i])
}

/// The store holds the list that the head `h` and the chain `c` describe:
/// the head counts the nodes and the values and names the first and the
/// last node, the nodes are linked both ways in the order of the chain,
/// and every key is the list's own.
pub open spec fn chain_ok(m: Store, list_key: Seq<u8>, h: QuickListView, c: Chain) -> bool {
    &&& c.zkeys.len() == c.keys.len()
    &&& c.parts.len() == c.keys.len()
    &&& h.len_node == c.keys.len()
    &&& h.len_list == c.parts.flatten().len()
    &&& h.len_list <= i32::MAX
    &&& h.left == (if c.keys.len() == 0 {
        None
    } else {
        Some(c.keys[0])
    })
    &&& h.right == (if c.keys.len() == 0 {
        None
    } else {
        Some(c.keys[c.keys.len() - 1])
    })
    &&& h.meta_key.len() == 10
    &&& keys_minted(h.meta_key, c)
    &&& keys_apart(list_key, c)
    &&& forall|i: int| 0 <= i < c.keys.len() ==> #[trigger] link_ok(m, c, i)
}

/// The store holds a well-formed list under `list_key`.
pub open spec fn list_wf(m: Store, list_key: Seq<u8>) -> bool {
    &&& head_at(m, list_key) is Some
    &&& exists|c: Chain| chain_ok(m, list_key, head_at(m, list_key).unwrap(), c)
}

/// The chain of the list under `list_key`.
pub open spec fn list_chain(m: Store, list_key: Seq<u8>) -> Chain {
    choose|c: Chain| chain_ok(m, list_key, head_at(m, list_key).unwrap(), c)
}

/// The values of the list under `list_key`, node by node; no node where
/// the store has no such key.
pub open spec fn list_parts(m: Store, list_key: Seq<u8>) -> Seq<Seq<Seq<u8>>> {
    if m.contains_key(list_key) {
        list_chain(m, list_key).parts
    } else {
        Seq::empty()
    }
}

/// The values of the list under `list_key`, first to last; none where
/// the store has no such key.
pub open spec fn list_values(m: Store, list_key: Seq<u8>) -> Seq<Seq<u8>> {
    list_parts(m, list_key).flatten()
}

/// The chain without a node.
pub open spec fn empty_chain() -> Chain {
    Chain { keys: Seq::empty(), zkeys: Seq::empty(), parts: Seq::empty() }
}

/// The head record that a list under `list_key` starts from: no node, no
/// value, and a counter with the hash of the key and the sequence number
/// 0.
pub open spec fn fresh_head(list_key: Seq<u8>) -> QuickListView {
    QuickListView {
        len_node: 0,
        len_list: 0,
        meta_key: MetaKey::spec_bytes(key_hash(list_key), 0),
        left: None,
        right: None,
    }
}

/// The head record of the list under `list_key`: the one in the store,
/// or, where the store has none, the one that the list would start
/// from.
pub open spec fn list_head(m: Store, list_key: Seq<u8>) -> QuickListView {
    if m.contains_key(list_key) {
        head_at(m, list_key).unwrap()
    } else {
        fresh_head(list_key)
    }
}

/// The chain of the list under `list_key`, none where the store has no
/// such key.
pub open spec fn list_chain_or_empty(m: Store, list_key: Seq<u8>) -> Chain {
    if m.contains_key(list_key) {
        list_chain(m, list_key)
    } else {
        empty_chain()
    }
}

/// A list that the store does not have yet is the empty chain under the
/// head that it starts from; a list that it has is its chain under its
/// head.
pub proof fn lemma_list_start(m: Store, list_key: Seq<u8>)
    requires
        list_ok(m, list_key),
    ensures
        chain_ok(m, list_key, list_head(m, list_key), list_chain_or_empty(m, list_key)),
        list_chain_or_empty(m, list_key).parts == list_parts(m, list_key),
        list_head(m, list_key).len_list == list_values(m, list_key).len(),
        m.contains_key(list_key) ==> head_at(m, list_key) is Some && m[list_key].len() == 40,
{
    if !m.contains_key(list_key) {
        MetaKey::lemma_parts_of(key_hash(list_key), 0);
    }
}

/// The store has no list under `list_key`, or a well-formed one.
pub open spec fn list_ok(m: Store, list_key: Seq<u8>) -> bool {
    !m.contains_key(list_key) || list_wf(m, list_key)
}

/// How many values stand in the nodes before node `j`.
pub open spec fn values_before(parts: Seq<Seq<Seq<u8>>>, j: int) -> int {
    parts.take(j).flatten().len() as int
}

/// The counts of the values of all nodes, added up.
pub open spec fn counts_sum(parts: Seq<Seq<Seq<u8>>>) -> nat
    decreases parts.len(),
{
    if parts.len() == 0 {
        0
    } else {
        counts_sum(parts.drop_last()) + parts.last().len()
    }
}

/// The values of a list are those of the nodes before node `j`, those of
/// node `j`, and those of the nodes behind it.
pub proof fn lemma_flatten_split(parts: Seq<Seq<Seq<u8>>>, j: int)
    requires
        0 <= j < parts.len(),
    ensures
        parts.flatten() == parts.take(j).flatten() + parts[j] + parts.skip(j + 1).flatten(),
        parts.take(j + 1).flatten() == parts.take(j).flatten() + parts[j],
        values_before(parts, j + 1) == values_before(parts, j) + parts[j].len(),
        values_before(parts, j + 1) <= parts.flatten().len(),
        values_before(parts, 0) == 0,
        values_before(parts, parts.len() as int) == parts.flatten().len(),
{
    let a = parts.take(j);
    let b = seq![parts[j]];
    let c = parts.skip(j + 1);
    assert(parts =~= a + b + c);
    lemma_flatten_concat(a, b);
    lemma_flatten_concat(a + b, c);
    b.lemma_flatten_one_element();
    assert(parts.take(j + 1) =~= a + b);
    assert(parts.take(0) =~= Seq::<Seq<Seq<u8>>>::empty());
    assert(parts.take(parts.len() as int) =~= parts);
}

/// A list has as many values as the counts of its nodes add up to.
pub proof fn lemma_counts_sum(parts: Seq<Seq<Seq<u8>>>)
    ensures
        counts_sum(parts) == parts.flatten().len(),
    decreases parts.len(),
{
    if parts.len() == 0 {
    } else {
        lemma_counts_sum(parts.drop_last());
        assert(parts.drop_last().push(parts.last()) =~= parts);
        parts.drop_last().lemma_flatten_push(parts.last());
    }
}

/// The values of a list in which node `j` holds `p` instead of what it
/// held.
pub proof fn lemma_flatten_update(parts: Seq<Seq<Seq<u8>>>, j: int, p: Seq<Seq<u8>>)
    requires
        0 <= j < parts.len(),
    ensures
        parts.update(j, p).flatten() == parts.take(j).flatten() + p + parts.skip(j + 1).flatten(),
        parts.update(j, p).flatten().len() == parts.flatten().len() - parts[j].len() + p.len(),
        parts.update(j, p).take(j) == parts.take(j),
{
    let q = parts.update(j, p);
    lemma_flatten_split(parts, j);
    lemma_flatten_split(q, j);
    assert(q.take(j) =~= parts.take(j));
    assert(q.skip(j + 1) =~= parts.skip(j + 1));
}

/// The values of a list without its node `j`.
pub proof fn lemma_flatten_remove(parts: Seq<Seq<Seq<u8>>>, j: int)
    requires
        0 <= j < parts.len(),
    ensures
        parts.remove(j).flatten() == parts.take(j).flatten() + parts.skip(j + 1).flatten(),
        parts.remove(j).flatten().len() == parts.flatten().len() - parts[j].len(),
{
    lemma_flatten_split(parts, j);
    assert(parts.remove(j) =~= parts.take(j) + parts.skip(j + 1));
    lemma_flatten_concat(parts.take(j), parts.skip(j + 1));
}

/// One store holds one list under a key, not two.
pub proof fn lemma_chain_unique(m: Store, list_key: Seq<u8>, h: QuickListView, c1: Chain, c2: Chain)
    requires
        chain_ok(m, list_key, h, c1),
        chain_ok(m, list_key, h, c2),
    ensures
        c1 == c2,
{
    let n = c1.keys.len() as int;
    assert forall|i: int| 0 <= i < n implies c1.keys[i] == c2.keys[i] && c1.zkeys[i] == c2.zkeys[i]
        && c1.parts[i] == c2.parts[i] by {
        lemma_keys_agree(m, list_key, h, c1, c2, i);
    }
    assert(c1.keys =~= c2.keys);
    assert(c1.zkeys =~= c2.zkeys);
    assert(c1.parts =~= c2.parts);
}

/// Two chains of one list have the same node `i`.
proof fn lemma_keys_agree(
    m: Store,
    list_key: Seq<u8>,
    h: QuickListView,
    c1: Chain,
    c2: Chain,
    i: int,
)
    requires
        chain_ok(m, list_key, h, c1),
        chain_ok(m, list_key, h, c2),
        0 <= i < c1.keys.len(),
    ensures
        c1.keys[i] == c2.keys[i],
        c1.zkeys[i] == c2.zkeys[i],
        c1.parts[i] == c2.parts[i],
    decreases i,
{
    if i > 0 {
        lemma_keys_agree(m, list_key, h, c1, c2, i - 1);
        assert(link_ok(m, c1, i - 1));
        assert(link_ok(m, c2, i - 1));
    }
    assert(link_ok(m, c1, i));
    assert(link_ok(m, c2, i));
}

/// What a chain spells is what the store holds under the key: its parts
/// are the list's parts and its values the list's values.
pub proof fn lemma_list_is(m: Store, list_key: Seq<u8>, c: Chain)
    requires
        head_at(m, list_key) is Some,
        chain_ok(m, list_key, head_at(m, list_key).unwrap(), c),
    ensures
        list_wf(m, list_key),
        list_chain(m, list_key) == c,
        list_parts(m, list_key) == c.parts,
        list_values(m, list_key) == c.parts.flatten(),
        head_at(m, list_key).unwrap().len_list == list_values(m, list_key).len(),
        list_keys(m, list_key) == chain_keys_of(list_key, c),
{
    lemma_chain_unique(m, list_key, head_at(m, list_key).unwrap(), list_chain(m, list_key), c);
}

/// Writing the head record of a list leaves its chain as it is.
pub proof fn lemma_put_head(m: Store, list_key: Seq<u8>, h: QuickListView, c: Chain, hb: Seq<u8>)
    requires
        chain_ok(m, list_key, h, c),
        hb.len() == 40,
        head_view(hb) == h,
    ensures
        chain_ok(m.insert(list_key, hb), list_key, h, c),
        head_at(m.insert(list_key, hb), list_key) == Some(h),
        list_wf(m.insert(list_key, hb), list_key),
        list_parts(m.insert(list_key, hb), list_key) == c.parts,
        list_values(m.insert(list_key, hb), list_key) == c.parts.flatten(),
        list_keys(m.insert(list_key, hb), list_key) == chain_keys_of(list_key, c),
        list_chain(m.insert(list_key, hb), list_key) == c,
{
    let m2 = m.insert(list_key, hb);
    assert forall|i: int| 0 <= i < c.keys.len() implies #[trigger] link_ok(m2, c, i) by {
        assert(link_ok(m, c, i));
    }
    lemma_list_is(m2, list_key, c);
}

/// A later counter of the same list has minted what an earlier one had.
pub proof fn lemma_minted_later(meta: Seq<u8>, meta2: Seq<u8>, c: Chain)
    requires
        keys_minted(meta, c),
        c.zkeys.len() == c.keys.len(),
        meta2.subrange(0, 8) == meta.subrange(0, 8),
        le16(meta.subrange(8, 10)) <= le16(meta2.subrange(8, 10)),
    ensures
        keys_minted(meta2, c),
{
    assert forall|i: int| 0 <= i < c.keys.len() implies minted(meta2, #[trigger] c.keys[i]) by {
        assert(minted(meta, c.keys[i]));
    }
    assert forall|i: int| 0 <= i < c.keys.len() implies minted(meta2, #[trigger] c.zkeys[i]) by {
        assert(minted(meta, c.zkeys[i]));
    }
}

/// A key with a sequence number beyond the counter is none of the chain.
pub proof fn lemma_fresh_key(meta: Seq<u8>, c: Chain, k: Seq<u8>)
    requires
        keys_minted(meta, c),
        c.zkeys.len() == c.keys.len(),
        k.len() == 10,
        le16(k.subrange(8, 10)) > le16(meta.subrange(8, 10)),
    ensures
        forall|i: int| 0 <= i < c.keys.len() ==> #[trigger] c.keys[i] != k,
        forall|i: int| 0 <= i < c.keys.len() ==> #[trigger] c.zkeys[i] != k,
{
    assert forall|i: int| 0 <= i < c.keys.len() implies #[trigger] c.keys[i] != k by {
        assert(minted(meta, c.keys[i]));
    }
    assert forall|i: int| 0 <= i < c.keys.len() implies #[trigger] c.zkeys[i] != k by {
        assert(minted(meta, c.zkeys[i]));
    }
}

/// The list after node `j` has been given other values: its packed list
/// `zb` and its record `nb` are written, and the head counts anew.
pub proof fn lemma_update_part(
    m: Store,
    list_key: Seq<u8>,
    h: QuickListView,
    c: Chain,
    j: int,
    p: Seq<Seq<u8>>,
    zb: Seq<u8>,
    nb: Seq<u8>,
    h2: QuickListView,
)
    requires
        chain_ok(m, list_key, h, c),
        0 <= j < c.keys.len(),
        p.len() > 0,
        zb.len() >= 4,
        parse_list(zb) == Some(p),
        nb.len() == 44,
        node_view(nb) == (QuickListNodeView {
            len_list: p.len(),
            len_bytes: zb.len(),
            ..node_at(m, c.keys[j]).unwrap()
        }),
        h2 == (QuickListView { len_list: (h.len_list - c.parts[j].len() + p.len()) as nat, ..h }),
        h.len_list - c.parts[j].len() + p.len() <= i32::MAX,
    ensures
        chain_ok(
            m.insert(c.zkeys[j], zb).insert(c.keys[j], nb),
            list_key,
            h2,
            Chain { parts: c.parts.update(j, p), ..c },
        ),
        c.parts.update(j, p).flatten() == c.parts.take(j).flatten() + p + c.parts.skip(
            j + 1,
        ).flatten(),
{
    let m2 = m.insert(c.zkeys[j], zb).insert(c.keys[j], nb);
    let c2 = Chain { parts: c.parts.update(j, p), ..c };
    lemma_flatten_update(c.parts, j, p);
    assert(link_ok(m, c, j));
    assert forall|i: int| 0 <= i < c2.keys.len() implies #[trigger] link_ok(m2, c2, i) by {
        assert(link_ok(m, c, i));
        if i != j {
            assert(c.keys[i] != c.keys[j]);
            assert(c.keys[i] != c.zkeys[j]);
            assert(c.zkeys[i] != c.zkeys[j]);
            assert(c.keys[j] != c.zkeys[i]);
        } else {
            assert(c.keys[j] != c.zkeys[j]);
        }
    }
}

/// The list after a node with the one value `v` has been put before its
/// first node: the new node's packed list `zb` and record `nb` are
/// written under the fresh keys `zk` and `nk`, and the node that was
/// first, if there was one, has the new one to its left in its record
/// `ob`.
pub proof fn lemma_add_front(
    m: Store,
    list_key: Seq<u8>,
    h: QuickListView,
    c: Chain,
    nk: Seq<u8>,
    zk: Seq<u8>,
    v: Seq<u8>,
    zb: Seq<u8>,
    nb: Seq<u8>,
    ob: Seq<u8>,
    h2: QuickListView,
)
    requires
        chain_ok(m, list_key, h, c),
        h.len_list < i32::MAX,
        h2.meta_key.len() == 10,
        h2.meta_key.subrange(0, 8) == h.meta_key.subrange(0, 8),
        minted(h2.meta_key, nk),
        minted(h2.meta_key, zk),
        le16(nk.subrange(8, 10)) > le16(h.meta_key.subrange(8, 10)),
        le16(zk.subrange(8, 10)) > le16(h.meta_key.subrange(8, 10)),
        nk != zk,
        nk != list_key,
        zk != list_key,
        zb.len() >= 4,
        parse_list(zb) == Some(seq![v]),
        nb.len() == 44,
        node_view(nb) == (QuickListNodeView {
            len_list: 1,
            len_bytes: zb.len(),
            left: None,
            right: if c.keys.len() == 0 {
                None
            } else {
                Some(c.keys[0])
            },
            values_key: Some(zk),
        }),
        c.keys.len() > 0 ==> ob.len() == 44 && node_view(ob) == (QuickListNodeView {
            left: Some(nk),
            ..node_at(m, c.keys[0]).unwrap()
        }),
        h2.len_node == h.len_node + 1,
        h2.len_list == h.len_list + 1,
        h2.left == Some(nk),
        h2.right == (if c.keys.len() == 0 {
            Some(nk)
        } else {
            h.right
        }),
    ensures
        chain_ok(
            if c.keys.len() == 0 {
                m.insert(zk, zb).insert(nk, nb)
            } else {
                m.insert(zk, zb).insert(nk, nb).insert(c.keys[0], ob)
            },
            list_key,
            h2,
            Chain {
                keys: seq![nk] + c.keys,
                zkeys: seq![zk] + c.zkeys,
                parts: seq![seq![v]] + c.parts,
            },
        ),
        (seq![seq![v]] + c.parts).flatten() == seq![v] + c.parts.flatten(),
{
    let n = c.keys.len() as int;
    let m1 = m.insert(zk, zb).insert(nk, nb);
    let m2 = if n == 0 {
        m1
    } else {
        m1.insert(c.keys[0], ob)
    };
    let c2 = Chain {
        keys: seq![nk] + c.keys,
        zkeys: seq![zk] + c.zkeys,
        parts: seq![seq![v]] + c.parts,
    };
    lemma_flatten_concat(seq![seq![v]], c.parts);
    seq![seq![v]].lemma_flatten_one_element();
    lemma_fresh_key(h.meta_key, c, nk);
    lemma_fresh_key(h.meta_key, c, zk);
    lemma_minted_later(h.meta_key, h2.meta_key, c);
    assert forall|i: int| 0 <= i < c2.keys.len() implies minted(
        h2.meta_key,
        #[trigger] c2.keys[i],
    ) by {
        if i > 0 {
            assert(c2.keys[i] == c.keys[i - 1]);
        }
    }
    assert forall|i: int| 0 <= i < c2.keys.len() implies minted(
        h2.meta_key,
        #[trigger] c2.zkeys[i],
    ) by {
        if i > 0 {
            assert(c2.zkeys[i] == c.zkeys[i - 1]);
        }
    }
    assert(keys_apart(list_key, c2)) by {
        assert forall|i: int| 0 <= i < c2.keys.len() implies (#[trigger] c2.keys[i] == (if i == 0 {
            nk
        } else {
            c.keys[i - 1]
        })) && (c2.zkeys[i] == (if i == 0 {
            zk
        } else {
            c.zkeys[i - 1]
        })) by {}
        assert forall|i: int, j: int|
            0 <= i < c2.keys.len() && 0 <= j < c2.keys.len() && i != j implies #[trigger] c2.keys[i]
            != #[trigger] c2.keys[j] by {
            if i > 0 && j > 0 {
                assert(c.keys[i - 1] != c.keys[j - 1]);
            } else if i > 0 {
                assert(c.keys[i - 1] != nk);
            } else {
                assert(c.keys[j - 1] != nk);
            }
        }
        assert forall|i: int, j: int|
            0 <= i < c2.keys.len() && 0 <= j < c2.keys.len() && i != j implies #[trigger] c2.zkeys[i]
            != #[trigger] c2.zkeys[j] by {
            if i > 0 && j > 0 {
                assert(c.zkeys[i - 1] != c.zkeys[j - 1]);
            } else if i > 0 {
                assert(c.zkeys[i - 1] != zk);
            } else {
                assert(c.zkeys[j - 1] != zk);
            }
        }
        assert forall|i: int, j: int|
            0 <= i < c2.keys.len() && 0 <= j < c2.keys.len() implies #[trigger] c2.keys[i]
            != #[trigger] c2.zkeys[j] by {
            if i > 0 && j > 0 {
                assert(c.keys[i - 1] != c.zkeys[j - 1]);
            } else if i > 0 {
                assert(c.keys[i - 1] != zk);
            } else if j > 0 {
                assert(c.zkeys[j - 1] != nk);
            }
        }
        assert forall|i: int| 0 <= i < c2.keys.len() implies #[trigger] c2.keys[i] != list_key by {
            if i > 0 {
                assert(c.keys[i - 1] != list_key);
            }
        }
        assert forall|i: int| 0 <= i < c2.keys.len() implies #[trigger] c2.zkeys[i] != list_key by {
            if i > 0 {
                assert(c.zkeys[i - 1] != list_key);
            }
        }
    }
    assert forall|i: int| 0 <= i < c2.keys.len() implies #[trigger] link_ok(m2, c2, i) by {
        if i == 0 {
            if n > 0 {
                assert(c.keys[0] != nk);
                assert(c.keys[0] != zk);
            }
        } else {
            let i0 = i - 1;
            assert(link_ok(m, c, i0));
            assert(c2.keys[i] == c.keys[i0]);
            assert(c2.zkeys[i] == c.zkeys[i0]);
            assert(c2.parts[i] == c.parts[i0]);
            assert(c.keys[i0] != nk);
            assert(c.keys[i0] != zk);
            assert(c.zkeys[i0] != nk);
            assert(c.zkeys[i0] != zk);
            if i0 > 0 {
                assert(c.keys[i0] != c.keys[0]);
                assert(c.keys[0] != c.zkeys[i0]);
                assert(c2.keys[i - 1] == c.keys[i0 - 1]);
            } else {
                assert(c.keys[0] != c.zkeys[0]);
            }
            if i0 < n - 1 {
                assert(c2.keys[i + 1] == c.keys[i0 + 1]);
            }
        }
    }
}

/// The list after a node with the one value `v` has been put behind its
/// last node: the new node's packed list `zb` and record `nb` are written
/// under the fresh keys `zk` and `nk`, and the node that was last, if
/// there was one, has the new one to its right in its record `ob`.
pub proof fn lemma_add_back(
    m: Store,
    list_key: Seq<u8>,
    h: QuickListView,
    c: Chain,
    nk: Seq<u8>,
    zk: Seq<u8>,
    v: Seq<u8>,
    zb: Seq<u8>,
    nb: Seq<u8>,
    ob: Seq<u8>,
    h2: QuickListView,
)
    requires
        chain_ok(m, list_key, h, c),
        h.len_list < i32::MAX,
        h2.meta_key.len() == 10,
        h2.meta_key.subrange(0, 8) == h.meta_key.subrange(0, 8),
        minted(h2.meta_key, nk),
        minted(h2.meta_key, zk),
        le16(nk.subrange(8, 10)) > le16(h.meta_key.subrange(8, 10)),
        le16(zk.subrange(8, 10)) > le16(h.meta_key.subrange(8, 10)),
        nk != zk,
        nk != list_key,
        zk != list_key,
        zb.len() >= 4,
        parse_list(zb) == Some(seq![v]),
        nb.len() == 44,
        node_view(nb) == (QuickListNodeView {
            len_list: 1,
            len_bytes: zb.len(),
            left: if c.keys.len() == 0 {
                None
            } else {
                Some(c.keys[c.keys.len() - 1])
            },
            right: None,
            values_key: Some(zk),
        }),
        c.keys.len() > 0 ==> ob.len() == 44 && node_view(ob) == (QuickListNodeView {
            right: Some(nk),
            ..node_at(m, c.keys[c.keys.len() - 1]).unwrap()
        }),
        h2.len_node == h.len_node + 1,
        h2.len_list == h.len_list + 1,
        h2.right == Some(nk),
        h2.left == (if c.keys.len() == 0 {
            Some(nk)
        } else {
            h.left
        }),
    ensures
        chain_ok(
            if c.keys.len() == 0 {
                m.insert(zk, zb).insert(nk, nb)
            } else {
                m.insert(zk, zb).insert(nk, nb).insert(c.keys[c.keys.len() - 1], ob)
            },
            list_key,
            h2,
            Chain { keys: c.keys.push(nk), zkeys: c.zkeys.push(zk), parts: c.parts.push(seq![v]) },
        ),
        c.parts.push(seq![v]).flatten() == c.parts.flatten().push(v),
{
    let n = c.keys.len() as int;
    let m1 = m.insert(zk, zb).insert(nk, nb);
    let m2 = if n == 0 {
        m1
    } else {
        m1.insert(c.keys[n - 1], ob)
    };
    let c2 = Chain {
        keys: c.keys.push(nk),
        zkeys: c.zkeys.push(zk),
        parts: c.parts.push(seq![v]),
    };
    c.parts.lemma_flatten_push(seq![v]);
    assert(c.parts.flatten() + seq![v] =~= c.parts.flatten().push(v));
    lemma_fresh_key(h.meta_key, c, nk);
    lemma_fresh_key(h.meta_key, c, zk);
    lemma_minted_later(h.meta_key, h2.meta_key, c);
    assert forall|i: int| 0 <= i < c2.keys.len() implies minted(
        h2.meta_key,
        #[trigger] c2.keys[i],
    ) by {
        if i < n {
            assert(c2.keys[i] == c.keys[i]);
        }
    }
    assert forall|i: int| 0 <= i < c2.keys.len() implies minted(
        h2.meta_key,
        #[trigger] c2.zkeys[i],
    ) by {
        if i < n {
            assert(c2.zkeys[i] == c.zkeys[i]);
        }
    }
    assert(keys_apart(list_key, c2)) by {
        assert forall|i: int| 0 <= i < c2.keys.len() implies (#[trigger] c2.keys[i] == (if i == n {
            nk
        } else {
            c.keys[i]
        })) && (c2.zkeys[i] == (if i == n {
            zk
        } else {
            c.zkeys[i]
        })) by {}
        assert forall|i: int, j: int|
            0 <= i < c2.keys.len() && 0 <= j < c2.keys.len() && i != j implies #[trigger] c2.keys[i]
            != #[trigger] c2.keys[j] by {
            if i < n && j < n {
                assert(c.keys[i] != c.keys[j]);
            } else if i < n {
                assert(c.keys[i] != nk);
            } else {
                assert(c.keys[j] != nk);
            }
        }
        assert forall|i: int, j: int|
            0 <= i < c2.keys.len() && 0 <= j < c2.keys.len() && i != j implies #[trigger] c2.zkeys[i]
            != #[trigger] c2.zkeys[j] by {
            if i < n && j < n {
                assert(c.zkeys[i] != c.zkeys[j]);
            } else if i < n {
                assert(c.zkeys[i] != zk);
            } else {
                assert(c.zkeys[j] != zk);
            }
        }
        assert forall|i: int, j: int|
            0 <= i < c2.keys.len() && 0 <= j < c2.keys.len() implies #[trigger] c2.keys[i]
            != #[trigger] c2.zkeys[j] by {
            if i < n && j < n {
                assert(c.keys[i] != c.zkeys[j]);
            } else if i < n {
                assert(c.keys[i] != zk);
            } else if j < n {
                assert(c.zkeys[j] != nk);
            }
        }
        assert forall|i: int| 0 <= i < c2.keys.len() implies #[trigger] c2.keys[i] != list_key by {
            if i < n {
                assert(c.keys[i] != list_key);
            }
        }
        assert forall|i: int| 0 <= i < c2.keys.len() implies #[trigger] c2.zkeys[i] != list_key by {
            if i < n {
                assert(c.zkeys[i] != list_key);
            }
        }
    }
    assert forall|i: int| 0 <= i < c2.keys.len() implies #[trigger] link_ok(m2, c2, i) by {
        if i == n {
            if n > 0 {
                assert(c.keys[n - 1] != nk);
                assert(c.keys[n - 1] != zk);
            }
        } else {
            assert(link_ok(m, c, i));
            assert(c2.keys[i] == c.keys[i]);
            assert(c2.zkeys[i] == c.zkeys[i]);
            assert(c2.parts[i] == c.parts[i]);
            assert(c.keys[i] != nk);
            assert(c.keys[i] != zk);
            assert(c.zkeys[i] != nk);
            assert(c.zkeys[i] != zk);
            if i < n - 1 {
                assert(c.keys[i] != c.keys[n - 1]);
                assert(c.keys[n - 1] != c.zkeys[i]);
                assert(c2.keys[i + 1] == c.keys[i + 1]);
            } else {
                assert(c.keys[n - 1] != c.zkeys[n - 1]);
            }
            if i > 0 {
                assert(c2.keys[i - 1] == c.keys[i - 1]);
            }
        }
    }
}

/// The store after node `j` has left the list: its packed list and its
/// record are deleted, and each neighbour that it had has the other, or
/// none, in its place: the left one in its record `lb`, the right one in
/// `rb`.
pub open spec fn store_without_node(m: Store, c: Chain, j: int, lb: Seq<u8>, rb: Seq<u8>) -> Store {
    let m1 = m.remove(c.zkeys[j]).remove(c.keys[j]);
    let m2 = if j > 0 {
        m1.insert(c.keys[j - 1], lb)
    } else {
        m1
    };
    if j < c.keys.len() - 1 {
        m2.insert(c.keys[j + 1], rb)
    } else {
        m2
    }
}

/// The chain without its node `j`.
pub open spec fn chain_without(c: Chain, j: int) -> Chain {
    Chain { keys: c.keys.remove(j), zkeys: c.zkeys.remove(j), parts: c.parts.remove(j) }
}

/// The keys of a chain without its node `j` are apart and minted as those
/// of the chain are.
proof fn lemma_remove_keys(list_key: Seq<u8>, meta: Seq<u8>, c: Chain, j: int)
    requires
        c.zkeys.len() == c.keys.len(),
        c.parts.len() == c.keys.len(),
        keys_apart(list_key, c),
        keys_minted(meta, c),
        0 <= j < c.keys.len(),
    ensures
        keys_apart(list_key, chain_without(c, j)),
        keys_minted(meta, chain_without(c, j)),
{
    let c2 = chain_without(c, j);
    assert forall|i: int| 0 <= i < c2.keys.len() implies (#[trigger] c2.keys[i] == c.keys[if i < j {
        i
    } else {
        i + 1
    }]) by {}
    assert forall|i: int| 0 <= i < c2.keys.len() implies (#[trigger] c2.zkeys[i] == c.zkeys[if i
        < j {
        i
    } else {
        i + 1
    }]) by {}
    assert forall|i: int| 0 <= i < c2.keys.len() implies minted(meta, #[trigger] c2.keys[i]) by {
        let i0 = if i < j { i } else { i + 1 };
        assert(minted(meta, c.keys[i0]));
    }
    assert forall|i: int| 0 <= i < c2.keys.len() implies minted(meta, #[trigger] c2.zkeys[i]) by {
        let i0 = if i < j { i } else { i + 1 };
        assert(minted(meta, c.zkeys[i0]));
    }
    assert forall|a: int, b: int|
        0 <= a < c2.keys.len() && 0 <= b < c2.keys.len() && a != b implies #[trigger] c2.keys[a]
        != #[trigger] c2.keys[b] by {
        let a0 = if a < j { a } else { a + 1 };
        let b0 = if b < j { b } else { b + 1 };
        assert(c.keys[a0] != c.keys[b0]);
    }
    assert forall|a: int, b: int|
        0 <= a < c2.keys.len() && 0 <= b < c2.keys.len() && a != b implies #[trigger] c2.zkeys[a]
        != #[trigger] c2.zkeys[b] by {
        let a0 = if a < j { a } else { a + 1 };
        let b0 = if b < j { b } else { b + 1 };
        assert(c.zkeys[a0] != c.zkeys[b0]);
    }
    assert forall|a: int, b: int|
        0 <= a < c2.keys.len() && 0 <= b < c2.keys.len() implies #[trigger] c2.keys[a]
        != #[trigger] c2.zkeys[b] by {
        let a0 = if a < j { a } else { a + 1 };
        let b0 = if b < j { b } else { b + 1 };
        assert(c.keys[a0] != c.zkeys[b0]);
    }
    assert forall|a: int| 0 <= a < c2.keys.len() implies #[trigger] c2.keys[a] != list_key by {
        let a0 = if a < j { a } else { a + 1 };
        assert(c.keys[a0] != list_key);
    }
    assert forall|a: int| 0 <= a < c2.keys.len() implies #[trigger] c2.zkeys[a] != list_key by {
        let a0 = if a < j { a } else { a + 1 };
        assert(c.zkeys[a0] != list_key);
    }
}

/// Node `i` of the chain without its node `j` is in the store after node
/// `j` has left, as the chain has it.
proof fn lemma_remove_link(
    m: Store,
    list_key: Seq<u8>,
    c: Chain,
    j: int,
    lb: Seq<u8>,
    rb: Seq<u8>,
    i: int,
)
    requires
        c.zkeys.len() == c.keys.len(),
        c.parts.len() == c.keys.len(),
        keys_apart(list_key, c),
        forall|i: int| 0 <= i < c.keys.len() ==> #[trigger] link_ok(m, c, i),
        0 <= j < c.keys.len(),
        0 <= i < c.keys.len() - 1,
        j > 0 ==> lb.len() == 44 && node_view(lb) == (QuickListNodeView {
            right: if j < c.keys.len() - 1 {
                Some(c.keys[j + 1])
            } else {
                None
            },
            ..node_at(m, c.keys[j - 1]).unwrap()
        }),
        j < c.keys.len() - 1 ==> rb.len() == 44 && node_view(rb) == (QuickListNodeView {
            left: if j > 0 {
                Some(c.keys[j - 1])
            } else {
                None
            },
            ..node_at(m, c.keys[j + 1]).unwrap()
        }),
    ensures
        link_ok(store_without_node(m, c, j, lb, rb), chain_without(c, j), i),
{
    let n = c.keys.len() as int;
    let m2 = store_without_node(m, c, j, lb, rb);
    let c2 = chain_without(c, j);
    let i0 = if i < j { i } else { i + 1 };
    assert(c2.keys[i] == c.keys[i0]);
    assert(c2.zkeys[i] == c.zkeys[i0]);
    assert(c2.parts[i] == c.parts[i0]);
    assert(link_ok(m, c, i0));
    assert(c.keys[i0] != c.keys[j]);
    assert(c.keys[i0] != c.zkeys[j]);
    assert(c.zkeys[i0] != c.zkeys[j]);
    assert(c.keys[j] != c.zkeys[i0]);
    if j > 0 {
        assert(link_ok(m, c, j - 1));
        assert(c.keys[j - 1] != c.zkeys[i0]);
        if i0 != j - 1 {
            assert(c.keys[i0] != c.keys[j - 1]);
        }
    }
    if j < n - 1 {
        assert(link_ok(m, c, j + 1));
        assert(c.keys[j + 1] != c.zkeys[i0]);
        if i0 != j + 1 {
            assert(c.keys[i0] != c.keys[j + 1]);
        }
    }
    if j > 0 && j < n - 1 {
        assert(c.keys[j - 1] != c.keys[j + 1]);
    }
    if i > 0 {
        assert(c2.keys[i - 1] == c.keys[if i - 1 < j { i - 1 } else { i }]);
    }
    if i < c2.keys.len() - 1 {
        assert(c2.keys[i + 1] == c.keys[if i + 1 < j { i + 1 } else { i + 2 }]);
    }
    assert(m2.contains_key(c.keys[i0]));
    assert(m2.contains_key(c.zkeys[i0]));
    assert(m2[c.zkeys[i0]] == m[c.zkeys[i0]]);
    if i0 == j - 1 {
        assert(m2[c.keys[i0]] == lb);
    } else if i0 == j + 1 {
        assert(m2[c.keys[i0]] == rb);
    } else {
        assert(m2[c.keys[i0]] == m[c.keys[i0]]);
    }
}

/// The list after node `j` has left it.
pub proof fn lemma_remove_node(
    m: Store,
    list_key: Seq<u8>,
    h: QuickListView,
    c: Chain,
    j: int,
    lb: Seq<u8>,
    rb: Seq<u8>,
    h2: QuickListView,
)
    requires
        chain_ok(m, list_key, h, c),
        0 <= j < c.keys.len(),
        j > 0 ==> lb.len() == 44 && node_view(lb) == (QuickListNodeView {
            right: if j < c.keys.len() - 1 {
                Some(c.keys[j + 1])
            } else {
                None
            },
            ..node_at(m, c.keys[j - 1]).unwrap()
        }),
        j < c.keys.len() - 1 ==> rb.len() == 44 && node_view(rb) == (QuickListNodeView {
            left: if j > 0 {
                Some(c.keys[j - 1])
            } else {
                None
            },
            ..node_at(m, c.keys[j + 1]).unwrap()
        }),
        h2 == (QuickListView {
            len_node: (h.len_node - 1) as nat,
            len_list: (h.len_list - c.parts[j].len()) as nat,
            left: if j > 0 {
                h.left
            } else if c.keys.len() > 1 {
                Some(c.keys[1])
            } else {
                None
            },
            right: if j < c.keys.len() - 1 {
                h.right
            } else if c.keys.len() > 1 {
                Some(c.keys[c.keys.len() - 2])
            } else {
                None
            },
            ..h
        }),
    ensures
        chain_ok(store_without_node(m, c, j, lb, rb), list_key, h2, chain_without(c, j)),
        c.parts.remove(j).flatten() == c.parts.take(j).flatten() + c.parts.skip(j + 1).flatten(),
        c.parts.flatten().len() >= c.parts[j].len(),
{
    let n = c.keys.len() as int;
    let m2 = store_without_node(m, c, j, lb, rb);
    let c2 = chain_without(c, j);
    lemma_flatten_remove(c.parts, j);
    lemma_flatten_split(c.parts, j);
    lemma_remove_keys(list_key, h.meta_key, c, j);
    assert forall|i: int| 0 <= i < c2.keys.len() implies #[trigger] link_ok(m2, c2, i) by {
        lemma_remove_link(m, list_key, c, j, lb, rb, i);
    }
    if n > 1 {
        if j == 0 {
            assert(c2.keys[0] == c.keys[1]);
        }
        if j == n - 1 {
            assert(c2.keys[n - 2] == c.keys[n - 2]);
        }
    }
}

/// Whether a push of `v` would grow the packed list of `part` beyond
/// what a node may hold.
pub open spec fn node_full(part: Seq<Seq<u8>>, v: Seq<u8>) -> bool {
    part.len() + 1 > QuickListNode::MAX_LEN || list_bytes(part).len() + 4 + v.len()
        > QuickListNode::MAX_BYTES
}

/// Whether a push of `v` at the left or the right end needs a node of its
/// own: the list has no node, or the node at that end would grow too far.
pub open spec fn needs_node(parts: Seq<Seq<Seq<u8>>>, v: Seq<u8>, left: bool) -> bool {
    parts.len() == 0 || node_full(
        if left {
            parts[0]
        } else {
            parts[parts.len() - 1]
        },
        v,
    )
}

/// The nodes of a list after a push of `v` at the left or the right end.
pub open spec fn push_parts(parts: Seq<Seq<Seq<u8>>>, v: Seq<u8>, left: bool) -> Seq<Seq<Seq<u8>>> {
    if needs_node(parts, v, left) {
        if left {
            seq![seq![v]] + parts
        } else {
            parts.push(seq![v])
        }
    } else if left {
        parts.update(0, seq![v] + parts[0])
    } else {
        parts.update(parts.len() - 1, parts[parts.len() - 1].push(v))
    }
}

/// The key that a list mints `d` steps after the counter `meta`.
pub open spec fn minted_next(meta: Seq<u8>, d: int) -> Seq<u8> {
    meta.subrange(0, 8) + le16_bytes(le16(meta.subrange(8, 10)) + d)
}

/// Whether a list with the head `h` cannot take a node more for the list
/// under `list_key`: it has no counter to mint keys from, the counter or
/// the count of nodes is at its end, or a key that it would mint is the
/// key of the list itself.
pub open spec fn node_refused(h: QuickListView, list_key: Seq<u8>) -> bool {
    ||| h.meta_key == no_key_bytes()
    ||| le16(h.meta_key.subrange(8, 10)) + 2 > 65535
    ||| h.len_node >= u32::MAX
    ||| minted_next(h.meta_key, 1) == list_key
    ||| minted_next(h.meta_key, 2) == list_key
}

/// Whether a push of `v` is refused: the value is longer than a length
/// mark can say, the list is full, or the push needs a node that the list
/// cannot take.
pub open spec fn push_refused(
    h: QuickListView,
    parts: Seq<Seq<Seq<u8>>>,
    list_key: Seq<u8>,
    v: Seq<u8>,
    left: bool,
) -> bool {
    ||| v.len() > 0xFFFF
    ||| h.len_list >= i32::MAX
    ||| (needs_node(parts, v, left) && node_refused(h, list_key))
}

/// A push puts the value before all others, or behind them.
pub proof fn lemma_push_values(parts: Seq<Seq<Seq<u8>>>, v: Seq<u8>, left: bool)
    ensures
        push_parts(parts, v, left).flatten() == (if left {
            seq![v] + parts.flatten()
        } else {
            parts.flatten().push(v)
        }),
{
    let n = parts.len() as int;
    if needs_node(parts, v, left) {
        if left {
            lemma_flatten_concat(seq![seq![v]], parts);
            seq![seq![v]].lemma_flatten_one_element();
        } else {
            parts.lemma_flatten_push(seq![v]);
            assert(parts.flatten() + seq![v] =~= parts.flatten().push(v));
        }
    } else if left {
        lemma_flatten_update(parts, 0, seq![v] + parts[0]);
        lemma_flatten_split(parts, 0);
        assert(parts.take(0).flatten() =~= Seq::<Seq<u8>>::empty());
        assert(push_parts(parts, v, left).flatten() =~= seq![v] + parts.flatten());
    } else {
        lemma_flatten_update(parts, n - 1, parts[n - 1].push(v));
        lemma_flatten_split(parts, n - 1);
        assert(parts.skip(n).flatten() =~= Seq::<Seq<u8>>::empty());
        assert(push_parts(parts, v, left).flatten() =~= parts.flatten().push(v));
    }
}

/// The nodes of a list after the value at its left or its right end has
/// been taken off: the node at that end holds one value less, or is gone
/// where it held but the one.
pub open spec fn pop_parts(parts: Seq<Seq<Seq<u8>>>, left: bool) -> Seq<Seq<Seq<u8>>> {
    let j = if left {
        0
    } else {
        parts.len() - 1
    };
    if parts[j].len() == 1 {
        parts.remove(j)
    } else if left {
        parts.update(j, parts[j].drop_first())
    } else {
        parts.update(j, parts[j].drop_last())
    }
}

/// Taking the value off one end of a list leaves the other values.
pub proof fn lemma_pop_values(parts: Seq<Seq<Seq<u8>>>, left: bool)
    requires
        parts.len() > 0,
        forall|i: int| 0 <= i < parts.len() ==> (#[trigger] parts[i]).len() > 0,
    ensures
        parts.flatten().len() > 0,
        left ==> parts.flatten()[0] == parts[0][0] && pop_parts(parts, left).flatten()
            == parts.flatten().drop_first(),
        !left ==> parts.flatten().last() == parts[parts.len() - 1].last() && pop_parts(
            parts,
            left,
        ).flatten() == parts.flatten().drop_last(),
{
    let n = parts.len() as int;
    let j = if left {
        0
    } else {
        n - 1
    };
    lemma_flatten_split(parts, j);
    lemma_flatten_remove(parts, j);
    assert(parts.take(0).flatten() =~= Seq::<Seq<u8>>::empty());
    assert(parts.skip(n).flatten() =~= Seq::<Seq<u8>>::empty());
    if left {
        lemma_flatten_update(parts, j, parts[j].drop_first());
        assert(pop_parts(parts, left).flatten() =~= parts.flatten().drop_first());
    } else {
        lemma_flatten_update(parts, j, parts[j].drop_last());
        assert(pop_parts(parts, left).flatten() =~= parts.flatten().drop_last());
    }
}

/// The node that holds the value at place `idx` of the list.
pub open spec fn node_index(parts: Seq<Seq<Seq<u8>>>, idx: int) -> int
    decreases parts.len(),
{
    if parts.len() <= 1 || idx < parts[0].len() {
        0
    } else {
        1 + node_index(parts.drop_first(), idx - parts[0].len())
    }
}

/// The node before which as many values stand as `idx` needs, and which
/// has the next one, is the node of place `idx`; and the value at that
/// place is the node's value at the place that is left.
pub proof fn lemma_node_index(parts: Seq<Seq<Seq<u8>>>, idx: int, j: int)
    requires
        0 <= j < parts.len(),
        values_before(parts, j) <= idx < values_before(parts, j) + parts[j].len(),
    ensures
        node_index(parts, idx) == j,
        idx < parts.flatten().len(),
        parts.flatten()[idx] == parts[j][idx - values_before(parts, j)],
    decreases j,
{
    lemma_flatten_split(parts, j);
    if j == 0 {
        assert(parts.take(0).flatten() =~= Seq::<Seq<u8>>::empty());
    } else {
        let rest = parts.drop_first();
        let first = seq![parts[0]];
        assert(parts.take(j) =~= first + rest.take(j - 1));
        lemma_flatten_concat(first, rest.take(j - 1));
        first.lemma_flatten_one_element();
        assert(rest[j - 1] == parts[j]);
        lemma_node_index(rest, idx - parts[0].len(), j - 1);
    }
}

/// Another value in a place of a node is another value in that place of
/// the list.
pub proof fn lemma_set_values(parts: Seq<Seq<Seq<u8>>>, j: int, local: int, v: Seq<u8>)
    requires
        0 <= j < parts.len(),
        0 <= local < parts[j].len(),
    ensures
        parts.update(j, parts[j].update(local, v)).flatten() == parts.flatten().update(
            values_before(parts, j) + local,
            v,
        ),
{
    let p = parts[j].update(local, v);
    lemma_flatten_update(parts, j, p);
    lemma_flatten_split(parts, j);
    let a = parts.take(j).flatten();
    let b = parts.skip(j + 1).flatten();
    assert(a + p + b =~= (a + parts[j] + b).update(a.len() + local, v));
}

/// A value more in a place of a node is a value more in that place of
/// the list.
pub proof fn lemma_insert_values(parts: Seq<Seq<Seq<u8>>>, j: int, local: int, v: Seq<u8>)
    requires
        0 <= j < parts.len(),
        0 <= local <= parts[j].len(),
    ensures
        parts.update(j, parts[j].insert(local, v)).flatten() == parts.flatten().insert(
            values_before(parts, j) + local,
            v,
        ),
        parts.update(j, parts[j].insert(local, v)).flatten().len() == parts.flatten().len() + 1,
{
    let p = parts[j].insert(local, v);
    lemma_flatten_update(parts, j, p);
    lemma_flatten_split(parts, j);
    let a = parts.take(j).flatten();
    let b = parts.skip(j + 1).flatten();
    assert(a + p + b =~= (a + parts[j] + b).insert(a.len() + local, v));
}

/// The values of a list between the places that `start` and `stop`
/// stand for, both included.
pub open spec fn list_range(values: Seq<Seq<u8>>, start: int, stop: int) -> Seq<Seq<u8>> {
    if values.len() == 0 {
        Seq::empty()
    } else {
        range_values(
            values,
            place_of(values.len() as int, start),
            place_of(values.len() as int, stop),
        )
    }
}

/// `x` held between `lo` and `hi`.
pub open spec fn clamp(x: int, lo: int, hi: int) -> int {
    if x < lo {
        lo
    } else if x > hi {
        hi
    } else {
        x
    }
}

/// The part of a range that falls into node `j` is the next part of the
/// range.
pub proof fn lemma_range_step(parts: Seq<Seq<Seq<u8>>>, j: int, s: int, e: int)
    requires
        0 <= j < parts.len(),
        0 <= s <= e < parts.flatten().len(),
    ensures
        ({
            let values = parts.flatten();
            let before = values_before(parts, j);
            let len = parts[j].len() as int;
            let lo = clamp(before, s, e + 1);
            let hi = clamp(before + len, s, e + 1);
            &&& lo <= hi
            &&& values.subrange(s, hi) == values.subrange(s, lo) + values.subrange(lo, hi)
            &&& s < before + len && e >= before && len > 0 ==> values.subrange(lo, hi)
                == range_values(parts[j], lo - before, hi - 1 - before) && lo - before == (if s
                > before {
                s - before
            } else {
                0
            }) && hi - 1 - before == (if e - before < len - 1 {
                e - before
            } else {
                len - 1
            })
            &&& !(s < before + len && e >= before && len > 0) ==> lo == hi
        }),
{
    let values = parts.flatten();
    let before = values_before(parts, j);
    let len = parts[j].len() as int;
    let lo = clamp(before, s, e + 1);
    let hi = clamp(before + len, s, e + 1);
    lemma_flatten_split(parts, j);
    assert(values.subrange(s, hi) =~= values.subrange(s, lo) + values.subrange(lo, hi));
    if s < before + len && e >= before && len > 0 {
        assert(values.subrange(lo, hi) =~= parts[j].subrange(lo - before, hi - before));
    }
}

/// The place of the first value of `values` that is `pivot`.
pub open spec fn first_index(values: Seq<Seq<u8>>, pivot: Seq<u8>) -> int {
    choose|i: int| first_at(values, pivot, i)
}

/// Whether `pivot` is among the values.
pub open spec fn has_value(values: Seq<Seq<u8>>, pivot: Seq<u8>) -> bool {
    exists|i: int| 0 <= i < values.len() && values[i] == pivot
}

/// The first value that is `pivot` has one place only.
pub proof fn lemma_first_index(values: Seq<Seq<u8>>, pivot: Seq<u8>, i: int)
    requires
        first_at(values, pivot, i),
    ensures
        first_index(values, pivot) == i,
        has_value(values, pivot),
{
    let k = first_index(values, pivot);
    if k < i {
        assert(values[k] != pivot);
    } else if i < k {
        assert(values[i] != pivot);
    }
}

/// Where the nodes before node `j` hold no `pivot` and node `j` holds its
/// first at `local`, that is the first of the list.
pub proof fn lemma_first_in_node(parts: Seq<Seq<Seq<u8>>>, j: int, local: int, pivot: Seq<u8>)
    requires
        0 <= j < parts.len(),
        forall|x: int| 0 <= x < values_before(parts, j) ==> parts.flatten()[x] != pivot,
        first_at(parts[j], pivot, local),
    ensures
        first_at(parts.flatten(), pivot, values_before(parts, j) + local),
        first_index(parts.flatten(), pivot) == values_before(parts, j) + local,
        node_index(parts, values_before(parts, j) + local) == j,
        has_value(parts.flatten(), pivot),
{
    let before = values_before(parts, j);
    let values = parts.flatten();
    lemma_flatten_split(parts, j);
    lemma_node_index(parts, before + local, j);
    assert forall|x: int| 0 <= x < before + local implies values[x] != pivot by {
        if x >= before {
            lemma_node_index(parts, x, j);
            assert(parts[j][x - before] != pivot);
        }
    }
    lemma_first_index(values, pivot, before + local);
}

/// Where the nodes before node `j` hold no `pivot` and node `j` holds
/// none, the nodes up to it hold none.
pub proof fn lemma_none_in_node(parts: Seq<Seq<Seq<u8>>>, j: int, pivot: Seq<u8>)
    requires
        0 <= j < parts.len(),
        forall|x: int| 0 <= x < values_before(parts, j) ==> parts.flatten()[x] != pivot,
        forall|t: int| 0 <= t < parts[j].len() ==> parts[j][t] != pivot,
    ensures
        forall|x: int| 0 <= x < values_before(parts, j + 1) ==> parts.flatten()[x] != pivot,
        j == parts.len() - 1 ==> !has_value(parts.flatten(), pivot),
{
    let before = values_before(parts, j);
    let values = parts.flatten();
    lemma_flatten_split(parts, j);
    assert forall|x: int| 0 <= x < values_before(parts, j + 1) implies values[x] != pivot by {
        if x >= before {
            lemma_node_index(parts, x, j);
            assert(parts[j][x - before] != pivot);
        }
    }
}

/// A list has no more nodes than values.
pub proof fn lemma_nodes_count(parts: Seq<Seq<Seq<u8>>>)
    requires
        forall|i: int| 0 <= i < parts.len() ==> (#[trigger] parts[i]).len() > 0,
    ensures
        parts.len() <= parts.flatten().len(),
    decreases parts.len(),
{
    if parts.len() > 0 {
        let rest = parts.drop_last();
        assert forall|i: int| 0 <= i < rest.len() implies (#[trigger] rest[i]).len() > 0 by {
            assert(rest[i] == parts[i]);
        }
        lemma_nodes_count(rest);
        assert(rest.push(parts.last()) =~= parts);
        rest.lemma_flatten_push(parts.last());
    }
}

/// A well-formed chain has no more nodes than values.
pub proof fn lemma_chain_count(m: Store, list_key: Seq<u8>, h: QuickListView, c: Chain)
    requires
        chain_ok(m, list_key, h, c),
    ensures
        c.keys.len() <= c.parts.flatten().len(),
        h.len_node <= h.len_list,
{
    assert forall|i: int| 0 <= i < c.parts.len() implies (#[trigger] c.parts[i]).len() > 0 by {
        assert(link_ok(m, c, i));
    }
    lemma_nodes_count(c.parts);
}

/// Whether the counter `b` is the counter `a` of the same list at a later
/// time, or the same: it has the hash of `a` and a sequence number that
/// is not lower.
pub open spec fn later_counter(a: Seq<u8>, b: Seq<u8>) -> bool {
    &&& b.subrange(0, 8) == a.subrange(0, 8)
    &&& le16(a.subrange(8, 10)) <= le16(b.subrange(8, 10))
}

/// Whether the packed list of a node with the record `nd` is in the
/// store and is what the record says of it: the record names it, and it
/// is well formed and has the count of values and of bytes that the
/// record has.
pub open spec fn values_sound(m: Store, nd: QuickListNodeView) -> bool {
    &&& nd.values_key is Some
    &&& zip_at(m, nd.values_key.unwrap()) is Some
    &&& zip_at(m, nd.values_key.unwrap()).unwrap().len() == nd.len_list
    &&& m[nd.values_key.unwrap()].len() == nd.len_bytes
}

/// The record of the node at the left or the right end of the list with
/// the head `h`, if the head names that node and the store has its record.
pub open spec fn end_node_at(m: Store, h: QuickListView, left: bool) -> Option<QuickListNodeView> {
    match (if left {
        h.left
    } else {
        h.right
    }) {
        Some(k) => node_at(m, k),
        None => None,
    }
}

/// Whether the node at the left or the right end of the list with the
/// head `h` is in the store with its packed list, each as it must be.
pub open spec fn end_sound(m: Store, h: QuickListView, left: bool) -> bool {
    end_node_at(m, h, left) is Some && values_sound(m, end_node_at(m, h, left).unwrap())
}

/// Where a walk that starts at the node under `key` and follows the links
/// to the right finds place `rest`: the key of the node that holds the
/// place, and the place within that node. Each record says how many
/// places its node holds. The walk finds nothing where a link or a record
/// is missing, or where the place is not reached within `steps` nodes.
pub open spec fn seek_node(m: Store, key: Option<Seq<u8>>, steps: nat, rest: int) -> Option<
    (Seq<u8>, int),
>
    decreases steps,
{
    if steps == 0 {
        None
    } else {
        match key {
            None => None,
            Some(k) => match node_at(m, k) {
                None => None,
                Some(nd) => if rest < nd.len_list {
                    Some((k, rest))
                } else {
                    seek_node(m, nd.right, (steps - 1) as nat, rest - nd.len_list)
                },
            },
        }
    }
}

/// The value that a walk from the left end of the list with the head `h`
/// finds at place `index`, if it finds the node of that place and the
/// node's packed list is sound.
pub open spec fn place_at(m: Store, h: QuickListView, index: int) -> Option<Seq<u8>> {
    match seek_node(m, h.left, h.len_node, index) {
        None => None,
        Some((k, local)) => {
            let nd = node_at(m, k).unwrap();
            if values_sound(m, nd) && 0 <= local <= i32::MAX {
                Some(zip_at(m, nd.values_key.unwrap()).unwrap()[local])
            } else {
                None
            }
        },
    }
}

/// Whether a node with the record `nd` has room for a push of `v`: with
/// the value, its packed list has no more values and no more bytes than a
/// push may grow it to.
pub open spec fn record_has_room(nd: QuickListNodeView, v: Seq<u8>) -> bool {
    nd.len_list + 1 <= QuickListNode::MAX_LEN && nd.len_bytes + 4 + v.len()
        <= QuickListNode::MAX_BYTES
}

/// The chain of a list after a push of `v` at the left or the right end,
/// where the counter of the list stood at `meta`: the value is in the
/// node at that end, or in a node of its own, whose record has the key
/// that the list mints next and whose packed list has the key that it
/// mints after that.
pub open spec fn push_chain(c: Chain, meta: Seq<u8>, v: Seq<u8>, left: bool) -> Chain {
    if !needs_node(c.parts, v, left) {
        Chain { parts: push_parts(c.parts, v, left), ..c }
    } else if left {
        Chain {
            keys: seq![minted_next(meta, 1)] + c.keys,
            zkeys: seq![minted_next(meta, 2)] + c.zkeys,
            parts: seq![seq![v]] + c.parts,
        }
    } else {
        Chain {
            keys: c.keys.push(minted_next(meta, 1)),
            zkeys: c.zkeys.push(minted_next(meta, 2)),
            parts: c.parts.push(seq![v]),
        }
    }
}

/// What the head record of a list says after a push of `v` at the left
/// or the right end: one value more and, where the value has a node of
/// its own, one node more, that node at the end, and the counter two keys
/// on.
pub open spec fn push_head(h: QuickListView, c: Chain, v: Seq<u8>, left: bool) -> QuickListView {
    if !needs_node(c.parts, v, left) {
        QuickListView { len_list: h.len_list + 1, ..h }
    } else {
        QuickListView {
            len_node: h.len_node + 1,
            len_list: h.len_list + 1,
            meta_key: minted_next(h.meta_key, 2),
            left: if left || c.keys.len() == 0 {
                Some(minted_next(h.meta_key, 1))
            } else {
                h.left
            },
            right: if !left || c.keys.len() == 0 {
                Some(minted_next(h.meta_key, 1))
            } else {
                h.right
            },
        }
    }
}

} // verus!
