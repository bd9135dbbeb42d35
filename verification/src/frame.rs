use crate::chain::{Chain, chain_without, keys_apart, list_chain_or_empty};
use crate::wrap_db::Store;
use vstd::prelude::*;

verus! {

/// The keys of the nodes `from` and behind it, and of their packed
/// lists.
pub open spec fn chain_key_set(c: Chain, from: int) -> Set<Seq<u8>> {
    Set::new(
        |x: Seq<u8>|
            exists|i: int|
                from <= i < c.keys.len() && 0 <= i && (x == #[trigger] c.keys[i] || x
                    == c.zkeys[i]),
    )
}

/// The store without the list under `list_key`: without its head record,
/// its node records and its packed lists.
pub open spec fn store_cleared(m: Store, list_key: Seq<u8>, c: Chain) -> Store {
    m.remove_keys(chain_key_set(c, 0)).remove(list_key)
}

/// The keys from node `j` on are those of node `j` and those behind it.
pub proof fn lemma_key_set_step(m: Store, c: Chain, j: int)
    requires
        0 <= j < c.keys.len(),
        c.zkeys.len() == c.keys.len(),
    ensures
        m.remove_keys(chain_key_set(c, j + 1)).remove(c.zkeys[j]).remove(c.keys[j])
            == m.remove_keys(chain_key_set(c, j)),
        m.remove_keys(chain_key_set(c, c.keys.len() as int)) == m,
{
    let s1 = chain_key_set(c, j + 1);
    let s0 = chain_key_set(c, j);
    assert forall|x: Seq<u8>| s0.contains(x) == (s1.contains(x) || x == c.keys[j] || x
        == c.zkeys[j]) by {
        if s0.contains(x) {
            let i = choose|i: int|
                j <= i < c.keys.len() && 0 <= i && (x == #[trigger] c.keys[i] || x == c.zkeys[i]);
            if i > j {
                assert(s1.contains(x));
            }
        }
        if s1.contains(x) {
            let i = choose|i: int|
                j + 1 <= i < c.keys.len() && 0 <= i && (x == #[trigger] c.keys[i] || x
                    == c.zkeys[i]);
            assert(j <= i && (x == c.keys[i] || x == c.zkeys[i]));
        }
        if x == c.keys[j] || x == c.zkeys[j] {
            assert(j <= j && (x == c.keys[j] || x == c.zkeys[j]));
        }
    }
    assert(m.remove_keys(s1).remove(c.zkeys[j]).remove(c.keys[j]) =~= m.remove_keys(s0));
    assert(m.remove_keys(chain_key_set(c, c.keys.len() as int)) =~= m);
}

/// A key of a node before `from` is none of the keys from `from` on.
pub proof fn lemma_key_set_apart(list_key: Seq<u8>, c: Chain, from: int, j: int)
    requires
        keys_apart(list_key, c),
        c.zkeys.len() == c.keys.len(),
        0 <= j < from,
        j < c.keys.len(),
    ensures
        !chain_key_set(c, from).contains(c.keys[j]),
        !chain_key_set(c, from).contains(c.zkeys[j]),
        !chain_key_set(c, from).contains(list_key),
{
    if chain_key_set(c, from).contains(c.keys[j]) {
        let i = choose|i: int|
            from <= i < c.keys.len() && 0 <= i && (c.keys[j] == #[trigger] c.keys[i] || c.keys[j]
                == c.zkeys[i]);
        assert(c.keys[j] != c.keys[i]);
        assert(c.keys[j] != c.zkeys[i]);
    }
    if chain_key_set(c, from).contains(c.zkeys[j]) {
        let i = choose|i: int|
            from <= i < c.keys.len() && 0 <= i && (c.zkeys[j] == #[trigger] c.keys[i] || c.zkeys[j]
                == c.zkeys[i]);
        assert(c.keys[i] != c.zkeys[j]);
        assert(c.zkeys[j] != c.zkeys[i]);
    }
    if chain_key_set(c, from).contains(list_key) {
        let i = choose|i: int|
            from <= i < c.keys.len() && 0 <= i && (list_key == #[trigger] c.keys[i] || list_key
                == c.zkeys[i]);
        assert(c.keys[i] != list_key);
        assert(c.zkeys[i] != list_key);
    }
}

/// The keys under which the list of a chain keeps its records: the key of
/// the list, for the head record, and the keys of the chain.
pub open spec fn chain_keys_of(list_key: Seq<u8>, c: Chain) -> Set<Seq<u8>> {
    chain_key_set(c, 0).insert(list_key)
}

/// The keys under which the store keeps the records of the list under
/// `list_key`; where it has no such list, the key of the list alone.
pub open spec fn list_keys(m: Store, list_key: Seq<u8>) -> Set<Seq<u8>> {
    chain_keys_of(list_key, list_chain_or_empty(m, list_key))
}

/// Whether the store `m2` holds under every key that is not in `s` what
/// the store `m` holds under it.
#[verifier::opaque]
pub open spec fn same_outside(m: Store, m2: Store, s: Set<Seq<u8>>) -> bool {
    forall|key: Seq<u8>|
        #![trigger s.contains(key)]
        #![trigger m2.contains_key(key)]
        !s.contains(key) ==> m2.contains_key(key) == m.contains_key(key) && (m.contains_key(key)
            ==> m2[key] == m[key])
}

/// The key of the list is one of the keys of its records.
pub proof fn lemma_key_set_has_key(list_key: Seq<u8>, c: Chain)
    ensures
        chain_keys_of(list_key, c).contains(list_key),
{
}

/// The keys of node `j` are keys of the chain.
pub proof fn lemma_key_set_has(list_key: Seq<u8>, c: Chain, j: int)
    requires
        0 <= j < c.keys.len(),
    ensures
        chain_keys_of(list_key, c).contains(c.keys[j]),
        chain_keys_of(list_key, c).contains(c.zkeys[j]),
        chain_keys_of(list_key, c).contains(list_key),
        chain_key_set(c, 0).contains(c.keys[j]),
        chain_key_set(c, 0).contains(c.zkeys[j]),
{
    assert(0 <= j && (c.keys[j] == c.keys[j] || c.keys[j] == c.zkeys[j]));
    assert(0 <= j && (c.zkeys[j] == c.keys[j] || c.zkeys[j] == c.zkeys[j]));
}

/// A chain that has lost a node, or holds other values, has no key that
/// it had not before.
pub proof fn lemma_key_set_less(list_key: Seq<u8>, c: Chain, j: int, parts: Seq<Seq<Seq<u8>>>)
    requires
        0 <= j < c.keys.len(),
        c.zkeys.len() == c.keys.len(),
    ensures
        chain_keys_of(list_key, chain_without(c, j)).subset_of(chain_keys_of(list_key, c)),
        chain_keys_of(list_key, Chain { parts: parts, ..c }) == chain_keys_of(list_key, c),
{
    let c2 = chain_without(c, j);
    assert forall|x: Seq<u8>| chain_key_set(c2, 0).contains(x) implies chain_key_set(
        c,
        0,
    ).contains(x) by {
        let i = choose|i: int|
            0 <= i < c2.keys.len() && 0 <= i && (x == #[trigger] c2.keys[i] || x == c2.zkeys[i]);
        let i0 = if i < j {
            i
        } else {
            i + 1
        };
        assert(c2.keys[i] == c.keys[i0]);
        assert(c2.zkeys[i] == c.zkeys[i0]);
        assert(0 <= i0 && (x == c.keys[i0] || x == c.zkeys[i0]));
    }
    assert(chain_key_set(Chain { parts: parts, ..c }, 0) =~= chain_key_set(c, 0));
}

/// A chain with a node more, at its front or at its back, has the keys
/// that it had and those of the new node.
pub proof fn lemma_key_set_more(list_key: Seq<u8>, c: Chain, nk: Seq<u8>, zk: Seq<u8>, v: Seq<u8>)
    requires
        c.zkeys.len() == c.keys.len(),
    ensures
        chain_keys_of(
            list_key,
            Chain {
                keys: seq![nk] + c.keys,
                zkeys: seq![zk] + c.zkeys,
                parts: seq![seq![v]] + c.parts,
            },
        ) == chain_keys_of(list_key, c).insert(nk).insert(zk),
        chain_keys_of(
            list_key,
            Chain { keys: c.keys.push(nk), zkeys: c.zkeys.push(zk), parts: c.parts.push(seq![v]) },
        ) == chain_keys_of(list_key, c).insert(nk).insert(zk),
{
    let n = c.keys.len() as int;
    let front = Chain {
        keys: seq![nk] + c.keys,
        zkeys: seq![zk] + c.zkeys,
        parts: seq![seq![v]] + c.parts,
    };
    let back = Chain {
        keys: c.keys.push(nk),
        zkeys: c.zkeys.push(zk),
        parts: c.parts.push(seq![v]),
    };
    let old_set = chain_key_set(c, 0);
    assert forall|x: Seq<u8>| #[trigger]
        chain_key_set(front, 0).contains(x) == (old_set.contains(x) || x == nk || x == zk) by {
        if chain_key_set(front, 0).contains(x) {
            let i = choose|i: int|
                0 <= i < front.keys.len() && 0 <= i && (x == #[trigger] front.keys[i] || x
                    == front.zkeys[i]);
            if i > 0 {
                assert(front.keys[i] == c.keys[i - 1]);
                assert(front.zkeys[i] == c.zkeys[i - 1]);
                assert(0 <= i - 1 && (x == c.keys[i - 1] || x == c.zkeys[i - 1]));
            }
        }
        if old_set.contains(x) {
            let i = choose|i: int|
                0 <= i < c.keys.len() && 0 <= i && (x == #[trigger] c.keys[i] || x == c.zkeys[i]);
            assert(front.keys[i + 1] == c.keys[i]);
            assert(front.zkeys[i + 1] == c.zkeys[i]);
            assert(0 <= i + 1 && (x == front.keys[i + 1] || x == front.zkeys[i + 1]));
        }
        if x == nk || x == zk {
            assert(front.keys[0] == nk);
            assert(front.zkeys[0] == zk);
            assert(0 <= 0 && (x == front.keys[0] || x == front.zkeys[0]));
        }
    }
    assert forall|x: Seq<u8>| #[trigger]
        chain_key_set(back, 0).contains(x) == (old_set.contains(x) || x == nk || x == zk) by {
        if chain_key_set(back, 0).contains(x) {
            let i = choose|i: int|
                0 <= i < back.keys.len() && 0 <= i && (x == #[trigger] back.keys[i] || x
                    == back.zkeys[i]);
            if i < n {
                assert(back.keys[i] == c.keys[i]);
                assert(back.zkeys[i] == c.zkeys[i]);
                assert(0 <= i && (x == c.keys[i] || x == c.zkeys[i]));
            }
        }
        if old_set.contains(x) {
            let i = choose|i: int|
                0 <= i < c.keys.len() && 0 <= i && (x == #[trigger] c.keys[i] || x == c.zkeys[i]);
            assert(back.keys[i] == c.keys[i]);
            assert(back.zkeys[i] == c.zkeys[i]);
            assert(0 <= i && (x == back.keys[i] || x == back.zkeys[i]));
        }
        if x == nk || x == zk {
            assert(back.keys[n] == nk);
            assert(back.zkeys[n] == zk);
            assert(0 <= n && (x == back.keys[n] || x == back.zkeys[n]));
        }
    }
    let more = chain_keys_of(list_key, c).insert(nk).insert(zk);
    assert forall|x: Seq<u8>| chain_keys_of(list_key, front).contains(x) == more.contains(x) by {
        assert(chain_key_set(front, 0).contains(x) == (old_set.contains(x) || x == nk || x == zk));
    }
    assert forall|x: Seq<u8>| chain_keys_of(list_key, back).contains(x) == more.contains(x) by {
        assert(chain_key_set(back, 0).contains(x) == (old_set.contains(x) || x == nk || x == zk));
    }
    assert(chain_keys_of(list_key, front) =~= more);
    assert(chain_keys_of(list_key, back) =~= more);
}

/// A store is the same as itself outside any keys, and stays the same as
/// another outside a set of keys when a key of the set is written or
/// deleted.
pub proof fn lemma_same_outside_put(
    m: Store,
    m1: Store,
    s: Set<Seq<u8>>,
    key: Seq<u8>,
    value: Seq<u8>,
)
    requires
        same_outside(m, m1, s),
        s.contains(key),
    ensures
        same_outside(m, m1.insert(key, value), s),
        same_outside(m, m1.remove(key), s),
        same_outside(m, m, s),
{
    reveal(same_outside);
}

/// A store is the same as itself outside any keys.
pub proof fn lemma_same_outside_self(m: Store, s: Set<Seq<u8>>)
    ensures
        same_outside(m, m, s),
{
    reveal(same_outside);
}

/// What is the same outside a set of keys is the same outside a larger
/// set.
pub proof fn lemma_same_outside_more(m: Store, m2: Store, s: Set<Seq<u8>>, s2: Set<Seq<u8>>)
    requires
        same_outside(m, m2, s),
        s.subset_of(s2),
    ensures
        same_outside(m, m2, s2),
{
    reveal(same_outside);
    assert forall|key: Seq<u8>|
        #![trigger s2.contains(key)]
        #![trigger m2.contains_key(key)]
        !s2.contains(key) implies m2.contains_key(key) == m.contains_key(key) && (m.contains_key(
        key,
    ) ==> m2[key] == m[key]) by {
        assert(!s.contains(key));
    }
}

/// What is the same outside a set of keys, and then again outside a part
/// of it, is the same outside the set.
pub proof fn lemma_same_outside_then(
    m: Store,
    m1: Store,
    m2: Store,
    s: Set<Seq<u8>>,
    s2: Set<Seq<u8>>,
)
    requires
        same_outside(m, m1, s),
        same_outside(m1, m2, s2),
        s2.subset_of(s),
    ensures
        same_outside(m, m2, s),
{
    reveal(same_outside);
    assert forall|key: Seq<u8>|
        #![trigger s.contains(key)]
        #![trigger m2.contains_key(key)]
        !s.contains(key) implies m2.contains_key(key) == m.contains_key(key) && (m.contains_key(
        key,
    ) ==> m2[key] == m[key]) by {
        assert(!s2.contains(key));
        assert(m1.contains_key(key) == m.contains_key(key));
    }
}

/// A list that is deleted leaves every key that was not its own as it
/// was.
pub proof fn lemma_cleared_outside(m: Store, list_key: Seq<u8>, c: Chain)
    ensures
        same_outside(m, store_cleared(m, list_key, c), chain_keys_of(list_key, c)),
{
    reveal(same_outside);
}

/// Whether the store `m2` holds nothing under the keys that are in
/// `before` and not in `after`: what has left a list has left the store.
#[verifier::opaque]
pub open spec fn keys_gone(m2: Store, before: Set<Seq<u8>>, after: Set<Seq<u8>>) -> bool {
    forall|key: Seq<u8>|
        #![trigger m2.contains_key(key)]
        #![trigger after.contains(key)]
        before.contains(key) && !after.contains(key) ==> !m2.contains_key(key)
}

/// Where no key has left, none has to be gone.
pub proof fn lemma_gone_none(m2: Store, before: Set<Seq<u8>>, after: Set<Seq<u8>>)
    requires
        before.subset_of(after),
    ensures
        keys_gone(m2, before, after),
{
    reveal(keys_gone);
}

/// The keys that a chain loses with its node `j` are the two of that
/// node; where the store holds nothing under them, what has left the
/// chain has left the store.
pub proof fn lemma_gone_node(m2: Store, list_key: Seq<u8>, c: Chain, j: int)
    requires
        0 <= j < c.keys.len(),
        c.zkeys.len() == c.keys.len(),
        !m2.contains_key(c.keys[j]),
        !m2.contains_key(c.zkeys[j]),
    ensures
        keys_gone(m2, chain_keys_of(list_key, c), chain_keys_of(list_key, chain_without(c, j))),
{
    reveal(keys_gone);
    let c2 = chain_without(c, j);
    assert forall|key: Seq<u8>|
        chain_keys_of(list_key, c).contains(key) && !chain_keys_of(list_key, c2).contains(
            key,
        ) implies !m2.contains_key(key) by {
        assert(chain_key_set(c, 0).contains(key));
        let i = choose|i: int|
            0 <= i < c.keys.len() && 0 <= i && (key == #[trigger] c.keys[i] || key == c.zkeys[i]);
        if i != j {
            let i2 = if i < j {
                i
            } else {
                i - 1
            };
            assert(c2.keys[i2] == c.keys[i]);
            assert(c2.zkeys[i2] == c.zkeys[i]);
            assert(0 <= i2 && (key == c2.keys[i2] || key == c2.zkeys[i2]));
            assert(chain_key_set(c2, 0).contains(key));
        }
    }
}

/// What is gone stays gone when a key that the list still has is
/// written.
pub proof fn lemma_gone_put(
    m2: Store,
    before: Set<Seq<u8>>,
    after: Set<Seq<u8>>,
    key: Seq<u8>,
    value: Seq<u8>,
)
    requires
        keys_gone(m2, before, after),
        after.contains(key),
    ensures
        keys_gone(m2.insert(key, value), before, after),
{
    reveal(keys_gone);
}

/// What had gone before a step, and what has gone with it, is gone after
/// it, where the step leaves the keys alone that were not the list's.
pub proof fn lemma_gone_then(
    m1: Store,
    m2: Store,
    s0: Set<Seq<u8>>,
    s1: Set<Seq<u8>>,
    s2: Set<Seq<u8>>,
)
    requires
        keys_gone(m1, s0, s1),
        same_outside(m1, m2, s1),
        keys_gone(m2, s1, s2),
    ensures
        keys_gone(m2, s0, s2),
{
    reveal(keys_gone);
    reveal(same_outside);
    assert forall|key: Seq<u8>|
        #![trigger m2.contains_key(key)]
        #![trigger s2.contains(key)]
        s0.contains(key) && !s2.contains(key) implies !m2.contains_key(key) by {
        if !s1.contains(key) {
            assert(!m1.contains_key(key));
        }
    }
}

/// A list that is deleted leaves nothing in the store under its keys.
pub proof fn lemma_cleared_gone(m: Store, list_key: Seq<u8>, c: Chain)
    ensures
        forall|k: Seq<u8>|
            chain_keys_of(list_key, c).contains(k) ==> !(#[trigger] store_cleared(
                m,
                list_key,
                c,
            ).contains_key(k)),
{
}

} // verus!
