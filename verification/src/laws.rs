use crate::chain::{
    Chain, counts_sum, head_at, lemma_counts_sum, lemma_flatten_split, lemma_fresh_key,
    lemma_list_is, lemma_node_index, lemma_pop_values, lemma_push_values, link_ok, list_chain,
    list_chain_or_empty, list_head, list_ok, list_parts, list_range, list_values, list_wf,
    minted_next, needs_node, node_at, node_full, node_index, pop_parts, push_chain, push_head,
    push_parts, push_refused,
};
use crate::frame::{chain_key_set, lemma_key_set_has, list_keys, same_outside};
use crate::types::{le16, le16_bytes};
use crate::quick_list_node::QuickListNode;
use crate::quick_list::{key_hash, QuickListView};
use crate::quick_list_node::QuickListNodeView;
use crate::types::MetaKey;
use crate::wrap_db::Store;
use crate::zip_list::lemma_list_bytes_parse;
use crate::zip_list::{lemma_size_floor, list_bytes, place_of, rem_hits, rem_kept, rem_values};
use vstd::prelude::*;

verus! {

/// The head record of a well-formed list counts the values that the list
/// holds, and so do the records of its nodes, each for its own and all of
/// them together.
pub proof fn lemma_length_is_count(m: Store, list_key: Seq<u8>)
    requires
        list_wf(m, list_key),
    ensures
        head_at(m, list_key).unwrap().len_list == list_values(m, list_key).len(),
        head_at(m, list_key).unwrap().len_list == counts_sum(list_parts(m, list_key)),
        head_at(m, list_key).unwrap().len_node == list_parts(m, list_key).len(),
        forall|i: int|
            0 <= i < list_parts(m, list_key).len() ==> node_at(
                m,
                #[trigger] list_chain(m, list_key).keys[i],
            ).unwrap().len_list == list_parts(m, list_key)[i].len(),
{
    let c = list_chain(m, list_key);
    lemma_list_is(m, list_key, c);
    lemma_counts_sum(c.parts);
    assert forall|i: int| 0 <= i < c.parts.len() implies node_at(
        m,
        #[trigger] c.keys[i],
    ).unwrap().len_list == c.parts[i].len() by {
        assert(link_ok(m, c, i));
    }
}

/// What is pushed at the right end comes off the left end in the order
/// in which it was pushed: after `a` and then `b` have been pushed to a
/// list without values, the first pop at the left gives `a`, the second
/// `b`, and no value is left.
pub proof fn lemma_first_in_first_out(a: Seq<u8>, b: Seq<u8>)
    ensures
        ({
            let none = Seq::<Seq<Seq<u8>>>::empty();
            let with_a = push_parts(none, a, false);
            let with_ab = push_parts(with_a, b, false);
            let with_b = pop_parts(with_ab, true);
            let after = pop_parts(with_b, true);
            &&& with_ab.flatten() == seq![a, b]
            &&& with_ab.flatten()[0] == a
            &&& with_b.flatten() == seq![b]
            &&& with_b.flatten()[0] == b
            &&& after.flatten().len() == 0
        }),
{
    let none = Seq::<Seq<Seq<u8>>>::empty();
    let with_a = push_parts(none, a, false);
    let with_ab = push_parts(with_a, b, false);
    let with_b = pop_parts(with_ab, true);
    lemma_push_values(none, a, false);
    lemma_push_values(with_a, b, false);
    assert(none.flatten() =~= Seq::<Seq<u8>>::empty());
    assert(with_ab.flatten() =~= seq![a, b]);
    assert(with_a =~= seq![seq![a]]);
    assert forall|i: int| 0 <= i < with_ab.len() implies (#[trigger] with_ab[i]).len() > 0 by {
        if needs_node(with_a, b, false) {
            assert(with_ab =~= seq![seq![a], seq![b]]);
        } else {
            assert(with_ab =~= seq![seq![a, b]]);
        }
    }
    lemma_pop_values(with_ab, true);
    assert(with_b.flatten() =~= seq![b]);
    assert(with_b =~= seq![seq![b]]);
    lemma_pop_values(with_b, true);
}

/// What is pushed at the left end is the value at place 0; a value set
/// there takes its place and the value that was pushed is what `lset`
/// hands back.
pub proof fn lemma_push_index_set(parts: Seq<Seq<Seq<u8>>>, v: Seq<u8>, v2: Seq<u8>)
    ensures
        ({
            let values = push_parts(parts, v, true).flatten();
            &&& values == seq![v] + parts.flatten()
            &&& place_of(values.len() as int, 0) == 0
            &&& values[0] == v
            &&& values.update(0, v2)[place_of(values.len() as int, 0)] == v2
        }),
{
    lemma_push_values(parts, v, true);
}

/// Of a list with values, the range from -1 to -1 is the last value and
/// the range from 0 to -1 is the whole list; so is every range that
/// starts at or before the first place and ends at or behind the last,
/// counted from either end.
pub proof fn lemma_ranges(values: Seq<Seq<u8>>, start: int, stop: int)
    requires
        values.len() > 0,
    ensures
        list_range(values, -1, -1) == seq![values.last()],
        list_range(values, 0, -1) == values,
        (start <= -values.len() || start == 0) && (stop >= values.len() - 1 || stop == -1)
            ==> list_range(values, start, stop) == values,
{
    let n = values.len() as int;
    assert(list_range(values, -1, -1) =~= seq![values.last()]);
    assert(list_range(values, 0, -1) =~= values);
    if (start <= -n || start == 0) && (stop >= n - 1 || stop == -1) {
        assert(list_range(values, start, stop) =~= values);
    }
}

/// A push at the right end of a list whose last node has no room for the
/// value gives the list one node more, which holds that value alone; the
/// nodes that were there stay as they are, and every place of the list is
/// found where it was or, the new one, in the new node.
pub proof fn lemma_push_splits(parts: Seq<Seq<Seq<u8>>>, v: Seq<u8>)
    requires
        parts.len() > 0,
        node_full(parts[parts.len() - 1], v),
    ensures
        push_parts(parts, v, false) == parts.push(seq![v]),
        push_parts(parts, v, false).len() == parts.len() + 1,
        push_parts(parts, v, false).flatten() == parts.flatten().push(v),
        node_index(push_parts(parts, v, false), parts.flatten().len() as int) == parts.len(),
        push_parts(parts, v, false).flatten()[parts.flatten().len() as int] == v,
        forall|i: int|
            0 <= i < parts.flatten().len() ==> push_parts(parts, v, false).flatten()[i]
                == parts.flatten()[i],
{
    let with_ab = parts.push(seq![v]);
    lemma_push_values(parts, v, false);
    lemma_flatten_split(with_ab, parts.len() as int);
    assert(with_ab.take(parts.len() as int) =~= parts);
    lemma_node_index(with_ab, parts.flatten().len() as int, parts.len() as int);
}

/// A node that a push may still grow holds fewer than 123 values: with
/// the count and the two marks of each value, 123 values fill the bytes
/// that a push may grow a node to.
pub proof fn lemma_node_room(part: Seq<Seq<u8>>, v: Seq<u8>)
    requires
        !node_full(part, v),
    ensures
        part.len() < 123,
        list_bytes(part).len() + 4 + v.len() <= QuickListNode::MAX_BYTES,
{
    lemma_size_floor(part);
}

/// Removing all values `v2` from `v2, v, v2, v, v2` leaves `v, v`.
pub proof fn lemma_rem_all(v: Seq<u8>, v2: Seq<u8>)
    requires
        v != v2,
    ensures
        rem_values(seq![v2, v, v2, v, v2], v2, 0) == seq![v, v],
        seq![v2, v, v2, v, v2].len() - rem_values(seq![v2, v, v2, v, v2], v2, 0).len() == 3,
{
    let s = seq![v2, v, v2, v, v2];
    reveal_with_fuel(rem_kept, 6);
    assert(rem_hits(s, v2, 0, 0));
    assert(!rem_hits(s, v2, 0, 1));
    assert(rem_hits(s, v2, 0, 2));
    assert(!rem_hits(s, v2, 0, 3));
    assert(rem_hits(s, v2, 0, 4));
    assert(rem_kept(s, v2, 0, 5) =~= seq![v, v]);
}

/// A list that the store does not hold is the same list whatever else the
/// store holds: a push finds no node and no value, starts from the same
/// head, is refused in the same cases and, where it is not, leaves one
/// node with the one value.
pub proof fn lemma_push_on_none(m1: Store, m2: Store, list_key: Seq<u8>, v: Seq<u8>, left: bool)
    requires
        !m1.contains_key(list_key),
        !m2.contains_key(list_key),
    ensures
        list_ok(m1, list_key),
        list_ok(m2, list_key),
        list_head(m1, list_key) == list_head(m2, list_key),
        list_parts(m1, list_key) == list_parts(m2, list_key),
        list_values(m1, list_key).len() == 0,
        push_refused(list_head(m1, list_key), list_parts(m1, list_key), list_key, v, left)
            == push_refused(list_head(m2, list_key), list_parts(m2, list_key), list_key, v, left),
        push_parts(list_parts(m1, list_key), v, left) == seq![seq![v]],
        push_parts(list_parts(m1, list_key), v, left).flatten() == seq![v],
{
    let e = Seq::<Seq<Seq<u8>>>::empty();
    assert(e + seq![seq![v]] =~= seq![seq![v]]);
    assert(seq![seq![v]] + e =~= seq![seq![v]]);
    assert(e.push(seq![v]) =~= seq![seq![v]]);
    seq![seq![v]].lemma_flatten_one_element();
}

/// A list whose keys lie outside what has changed in the store is the
/// list that it was: lists under different keys, with records of their
/// own, do not touch each other.
pub proof fn lemma_lists_apart(m: Store, m2: Store, s: Set<Seq<u8>>, list_key: Seq<u8>)
    requires
        list_wf(m, list_key),
        same_outside(m, m2, s),
        s.disjoint(list_keys(m, list_key)),
    ensures
        list_wf(m2, list_key),
        head_at(m2, list_key) == head_at(m, list_key),
        list_chain(m2, list_key) == list_chain(m, list_key),
        list_parts(m2, list_key) == list_parts(m, list_key),
        list_values(m2, list_key) == list_values(m, list_key),
{
    reveal(same_outside);
    let c = list_chain(m, list_key);
    let h = head_at(m, list_key).unwrap();
    assert(list_keys(m, list_key).contains(list_key));
    assert(m2.contains_key(list_key));
    assert forall|i: int| 0 <= i < c.keys.len() implies #[trigger] link_ok(m2, c, i) by {
        assert(link_ok(m, c, i));
        lemma_key_set_has(list_key, c, i);
        assert(m2.contains_key(c.keys[i]));
        assert(m2.contains_key(c.zkeys[i]));
    }
    lemma_list_is(m2, list_key, c);
}

/// A key that the list mints after its counter stands at `meta` is none
/// of the keys that the list has.
pub proof fn lemma_minted_is_new(m: Store, list_key: Seq<u8>, d: int)
    requires
        list_wf(m, list_key),
        1 <= d,
        le16(head_at(m, list_key).unwrap().meta_key.subrange(8, 10)) + d <= 65535,
    ensures
        !chain_key_set(list_chain(m, list_key), 0).contains(
            minted_next(head_at(m, list_key).unwrap().meta_key, d),
        ),
{
    let c = list_chain(m, list_key);
    let meta = head_at(m, list_key).unwrap().meta_key;
    let k = minted_next(meta, d);
    let seq = le16(meta.subrange(8, 10));
    crate::types::lemma_le16_of_bytes(seq + d);
    assert(k.subrange(8, 10) =~= le16_bytes(seq + d));
    lemma_fresh_key(meta, c, k);
    if chain_key_set(c, 0).contains(k) {
        let i = choose|i: int|
            0 <= i < c.keys.len() && 0 <= i && (k == #[trigger] c.keys[i] || k == c.zkeys[i]);
        assert(c.keys[i] != k);
        assert(c.zkeys[i] != k);
    }
}

/// The first push to a list that the store does not hold writes the same
/// records whatever else the store holds, and so after a `clear` as on a
/// key that never had a list: the node has the first key that the list
/// mints from the hash of its key and the packed list the second, the
/// head counts one node and one value and names the node at both ends,
/// the node's record counts the one value and the bytes of its packed
/// list and has no neighbour, and the packed list is the packing of the
/// one value.
pub proof fn lemma_first_push_records(
    m: Store,
    m2: Store,
    list_key: Seq<u8>,
    v: Seq<u8>,
    left: bool,
)
    requires
        !m.contains_key(list_key),
        list_wf(m2, list_key),
        head_at(m2, list_key) == Some(
            push_head(list_head(m, list_key), list_chain_or_empty(m, list_key), v, left),
        ),
        list_chain(m2, list_key) == push_chain(
            list_chain_or_empty(m, list_key),
            list_head(m, list_key).meta_key,
            v,
            left,
        ),
    ensures
        ({
            let meta = MetaKey::spec_bytes(key_hash(list_key), 0);
            let nk = minted_next(meta, 1);
            let zk = minted_next(meta, 2);
            &&& head_at(m2, list_key) == Some(
                QuickListView {
                    len_node: 1,
                    len_list: 1,
                    meta_key: zk,
                    left: Some(nk),
                    right: Some(nk),
                },
            )
            &&& list_chain(m2, list_key) == (Chain {
                keys: seq![nk],
                zkeys: seq![zk],
                parts: seq![seq![v]],
            })
            &&& node_at(m2, nk) == Some(
                QuickListNodeView {
                    len_list: 1,
                    len_bytes: list_bytes(seq![v]).len(),
                    left: None,
                    right: None,
                    values_key: Some(zk),
                },
            )
            &&& m2.contains_key(zk)
            &&& m2[zk] == list_bytes(seq![v])
            &&& list_values(m2, list_key) == seq![v]
        }),
{
    let meta = MetaKey::spec_bytes(key_hash(list_key), 0);
    let nk = minted_next(meta, 1);
    let zk = minted_next(meta, 2);
    let e = Seq::<Seq<Seq<u8>>>::empty();
    let c = list_chain(m2, list_key);
    assert(seq![nk] + Seq::<Seq<u8>>::empty() =~= seq![nk]);
    assert(seq![zk] + Seq::<Seq<u8>>::empty() =~= seq![zk]);
    assert(seq![seq![v]] + e =~= seq![seq![v]]);
    assert(Seq::<Seq<u8>>::empty().push(nk) =~= seq![nk]);
    assert(Seq::<Seq<u8>>::empty().push(zk) =~= seq![zk]);
    assert(e.push(seq![v]) =~= seq![seq![v]]);
    assert(c.keys =~= seq![nk]);
    assert(c.zkeys =~= seq![zk]);
    assert(c.parts =~= seq![seq![v]]);
    lemma_list_is(m2, list_key, c);
    assert(link_ok(m2, c, 0));
    lemma_list_bytes_parse(m2[zk]);
    seq![seq![v]].lemma_flatten_one_element();
}

} // verus!
