use crate::chain::{Chain, chain_without};
use crate::zip_list::{lemma_rem_concat, lemma_rem_count, lemma_rem_none, rem_values};
use vstd::seq_lib::lemma_flatten_concat;
use vstd::prelude::*;

verus! {

/// What is left of a count of values to remove after `used` of them have
/// been removed; a count of 0, which asks for all, stays 0.
pub open spec fn count_left(count: int, used: int) -> int {
    if count == 0 {
        0
    } else if count > 0 {
        count - used
    } else {
        count + used
    }
}

/// Whether a removal has taken as many values as its count asked for.
pub open spec fn count_done(count: int, used: int) -> bool {
    (count > 0 && used >= count) || (count < 0 && used >= -count)
}

/// The nodes of a list after a removal that walks from the first node to
/// the last, for a `count` that is not negative: each node loses what
/// the count still asks for, a node that loses all its values leaves the
/// list, and the walk ends where the count is used up.
pub open spec fn rem_parts_left(parts: Seq<Seq<Seq<u8>>>, v: Seq<u8>, count: int) -> Seq<
    Seq<Seq<u8>>,
>
    decreases parts.len(),
{
    if parts.len() == 0 {
        parts
    } else {
        let kept = rem_values(parts[0], v, count);
        let used = parts[0].len() - kept.len();
        let rest = if count_done(count, used) {
            parts.drop_first()
        } else {
            rem_parts_left(parts.drop_first(), v, count_left(count, used))
        };
        if kept.len() == 0 {
            rest
        } else {
            seq![kept] + rest
        }
    }
}

/// The nodes of a list after a removal that walks from the last node to
/// the first, for a negative `count`.
pub open spec fn rem_parts_right(parts: Seq<Seq<Seq<u8>>>, v: Seq<u8>, count: int) -> Seq<
    Seq<Seq<u8>>,
>
    decreases parts.len(),
{
    if parts.len() == 0 {
        parts
    } else {
        let kept = rem_values(parts.last(), v, count);
        let used = parts.last().len() - kept.len();
        let rest = if count_done(count, used) {
            parts.drop_last()
        } else {
            rem_parts_right(parts.drop_last(), v, count_left(count, used))
        };
        if kept.len() == 0 {
            rest
        } else {
            rest.push(kept)
        }
    }
}

/// The nodes of a list after the removal of `count` values `v`.
pub open spec fn rem_parts(parts: Seq<Seq<Seq<u8>>>, v: Seq<u8>, count: int) -> Seq<Seq<Seq<u8>>> {
    if count < 0 {
        rem_parts_right(parts, v, count)
    } else {
        rem_parts_left(parts, v, count)
    }
}

/// A removal node by node from the first node on leaves what a removal
/// from the whole list leaves.
proof fn lemma_rem_parts_left(parts: Seq<Seq<Seq<u8>>>, v: Seq<u8>, count: int)
    requires
        count >= 0,
    ensures
        rem_parts_left(parts, v, count).flatten() == rem_values(parts.flatten(), v, count),
    decreases parts.len(),
{
    if parts.len() == 0 {
        assert(rem_values(Seq::<Seq<u8>>::empty(), v, count) =~= Seq::<Seq<u8>>::empty());
    } else {
        let a = parts[0];
        let rest = parts.drop_first();
        let b = rest.flatten();
        let kept = rem_values(a, v, count);
        let used = a.len() - kept.len();
        lemma_rem_count(a, v, count);
        lemma_rem_concat(a, b, v, count);
        assert(parts =~= seq![a] + rest);
        lemma_flatten_concat(seq![a], rest);
        seq![a].lemma_flatten_one_element();
        let rest2 = if count_done(count, used) {
            rest
        } else {
            rem_parts_left(rest, v, count_left(count, used))
        };
        if !count_done(count, used) {
            lemma_rem_parts_left(rest, v, count_left(count, used));
        }
        if kept.len() == 0 {
            assert(kept + rest2.flatten() =~= rest2.flatten());
        } else {
            lemma_flatten_concat(seq![kept], rest2);
            seq![kept].lemma_flatten_one_element();
        }
    }
}

/// A removal node by node from the last node on leaves what a removal
/// from the whole list leaves.
proof fn lemma_rem_parts_right(parts: Seq<Seq<Seq<u8>>>, v: Seq<u8>, count: int)
    requires
        count < 0,
    ensures
        rem_parts_right(parts, v, count).flatten() == rem_values(parts.flatten(), v, count),
    decreases parts.len(),
{
    if parts.len() == 0 {
        assert(rem_values(Seq::<Seq<u8>>::empty(), v, count) =~= Seq::<Seq<u8>>::empty());
    } else {
        let b = parts.last();
        let rest = parts.drop_last();
        let a = rest.flatten();
        let kept = rem_values(b, v, count);
        let used = b.len() - kept.len();
        lemma_rem_count(b, v, count);
        lemma_rem_concat(a, b, v, count);
        assert(parts =~= rest.push(b));
        rest.lemma_flatten_push(b);
        let rest2 = if count_done(count, used) {
            rest
        } else {
            rem_parts_right(rest, v, count_left(count, used))
        };
        if !count_done(count, used) {
            lemma_rem_parts_right(rest, v, count_left(count, used));
        }
        if kept.len() == 0 {
            assert(rest2.flatten() + kept =~= rest2.flatten());
        } else {
            rest2.lemma_flatten_push(kept);
        }
    }
}

/// A removal node by node leaves the values that a removal from the
/// whole list leaves.
pub proof fn lemma_rem_parts(parts: Seq<Seq<Seq<u8>>>, v: Seq<u8>, count: int)
    ensures
        rem_parts(parts, v, count).flatten() == rem_values(parts.flatten(), v, count),
{
    if count < 0 {
        lemma_rem_parts_right(parts, v, count);
    } else {
        lemma_rem_parts_left(parts, v, count);
    }
}

/// Two sequences that agree from `jj` and `i` on agree from the next
/// places on, also where the first loses its element `jj`.
pub proof fn lemma_skip_step<T>(cur: Seq<T>, c: Seq<T>, jj: int, i: int)
    requires
        0 <= jj < cur.len(),
        0 <= i < c.len(),
        cur.skip(jj) == c.skip(i),
    ensures
        cur.len() - jj == c.len() - i,
        cur[jj] == c[i],
        cur.skip(jj + 1) == c.skip(i + 1),
        cur.remove(jj).skip(jj) == c.skip(i + 1),
        cur.remove(jj).take(jj) == cur.take(jj),
        jj + 1 < cur.len() ==> cur[jj + 1] == c[i + 1] && cur.remove(jj)[jj] == c[i + 1],
{
    assert(cur.skip(jj).len() == c.skip(i).len());
    assert(cur.skip(jj)[0] == cur[jj]);
    assert(c.skip(i)[0] == c[i]);
    assert(cur.skip(jj + 1) =~= cur.skip(jj).skip(1));
    assert(c.skip(i + 1) =~= c.skip(i).skip(1));
    assert(cur.remove(jj).skip(jj) =~= cur.skip(jj + 1));
    assert(cur.remove(jj).take(jj) =~= cur.take(jj));
    if jj + 1 < cur.len() {
        assert(cur.skip(jj)[1] == cur[jj + 1]);
        assert(c.skip(i)[1] == c[i + 1]);
        assert(cur.remove(jj)[jj] == cur[jj + 1]);
    }
}

/// Two sequences that agree up to a place agree up to the place before,
/// also where the first loses its element at that place.
pub proof fn lemma_take_step<T>(cur: Seq<T>, c: Seq<T>, i: int)
    requires
        0 <= i < cur.len(),
        i < c.len(),
        cur.take(i + 1) == c.take(i + 1),
    ensures
        cur[i] == c[i],
        cur.take(i) == c.take(i),
        cur.remove(i).take(i) == c.take(i),
        cur.remove(i).skip(i) == cur.skip(i + 1),
        i > 0 ==> cur[i - 1] == c[i - 1] && cur.remove(i)[i - 1] == c[i - 1],
{
    assert(cur.take(i + 1)[i] == cur[i]);
    assert(c.take(i + 1)[i] == c[i]);
    assert(cur.take(i) =~= cur.take(i + 1).take(i));
    assert(c.take(i) =~= c.take(i + 1).take(i));
    assert(cur.remove(i).take(i) =~= cur.take(i));
    assert(cur.remove(i).skip(i) =~= cur.skip(i + 1));
    if i > 0 {
        assert(cur.take(i + 1)[i - 1] == cur[i - 1]);
        assert(c.take(i + 1)[i - 1] == c[i - 1]);
        assert(cur.remove(i)[i - 1] == cur[i - 1]);
    }
}

/// One step of a removal that walks from the first node to the last:
/// node `i` of the list, which stands at `jj` in what the walk has made
/// of it, has lost `done` values and holds `kept`.
pub proof fn lemma_rem_step_left(
    c: Seq<Seq<Seq<u8>>>,
    cur: Seq<Seq<Seq<u8>>>,
    cur2: Seq<Seq<Seq<u8>>>,
    v: Seq<u8>,
    count: int,
    removed: int,
    done: int,
    i: int,
    jj: int,
    jj2: int,
    kept: Seq<Seq<u8>>,
)
    requires
        count >= 0,
        0 <= removed,
        0 <= i < c.len(),
        0 <= jj < cur.len(),
        c[i].len() > 0,
        cur.skip(jj) == c.skip(i),
        rem_parts_left(c, v, count) == cur.take(jj) + rem_parts_left(
            c.skip(i),
            v,
            count_left(count, removed),
        ),
        !count_done(count, removed),
        kept == rem_values(c[i], v, count_left(count, removed)),
        done == c[i].len() - kept.len(),
        if done == 0 {
            cur2 == cur && jj2 == jj + 1
        } else if kept.len() > 0 {
            cur2 == cur.update(jj, kept) && jj2 == jj + 1
        } else {
            cur2 == cur.remove(jj) && jj2 == jj
        },
    ensures
        0 <= done <= c[i].len(),
        count > 0 ==> removed + done <= count,
        cur2.skip(jj2) == c.skip(i + 1),
        count_done(count, removed + done) || i == c.len() - 1 ==> rem_parts_left(c, v, count)
            == cur2,
        !(count_done(count, removed + done) || i == c.len() - 1) ==> rem_parts_left(c, v, count)
            == cur2.take(jj2) + rem_parts_left(c.skip(i + 1), v, count_left(count, removed + done)),
{
    let left = count_left(count, removed);
    let s = c.skip(i);
    lemma_skip_step(cur, c, jj, i);
    lemma_rem_count(c[i], v, left);
    assert(s[0] == c[i]);
    assert(s.drop_first() =~= c.skip(i + 1));
    if done == 0 {
        lemma_rem_none(c[i], v, left);
        assert(cur.take(jj + 1) =~= cur.take(jj) + seq![kept]);
    } else if kept.len() > 0 {
        assert(cur2.take(jj + 1) =~= cur.take(jj) + seq![kept]);
        assert(cur2.skip(jj + 1) =~= cur.skip(jj + 1));
    }
    let rest = if count_done(left, done) {
        s.drop_first()
    } else {
        rem_parts_left(s.drop_first(), v, count_left(left, done))
    };
    assert(count_done(left, done) == count_done(count, removed + done));
    assert(!count_done(left, done) ==> count_left(left, done) == count_left(
        count,
        removed + done,
    ));
    if i == c.len() - 1 {
        assert(c.skip(i + 1) =~= Seq::<Seq<Seq<u8>>>::empty());
    }
    if kept.len() == 0 {
        assert(cur.take(jj) + rest =~= cur2.take(jj2) + rest);
    } else {
        assert(cur.take(jj) + (seq![kept] + rest) =~= cur2.take(jj2) + rest);
    }
    if count_done(count, removed + done) || i == c.len() - 1 {
        assert(cur2.take(jj2) + cur2.skip(jj2) =~= cur2);
    }
}

/// One step of a removal that walks from the last node to the first:
/// node `i` of the list has lost `done` values and holds `kept`.
pub proof fn lemma_rem_step_right(
    c: Seq<Seq<Seq<u8>>>,
    cur: Seq<Seq<Seq<u8>>>,
    cur2: Seq<Seq<Seq<u8>>>,
    v: Seq<u8>,
    count: int,
    removed: int,
    done: int,
    i: int,
    kept: Seq<Seq<u8>>,
)
    requires
        count < 0,
        0 <= removed,
        0 <= i < c.len(),
        i < cur.len(),
        c[i].len() > 0,
        cur.take(i + 1) == c.take(i + 1),
        rem_parts_right(c, v, count) == rem_parts_right(
            c.take(i + 1),
            v,
            count_left(count, removed),
        ) + cur.skip(i + 1),
        !count_done(count, removed),
        kept == rem_values(c[i], v, count_left(count, removed)),
        done == c[i].len() - kept.len(),
        if done == 0 {
            cur2 == cur
        } else if kept.len() > 0 {
            cur2 == cur.update(i, kept)
        } else {
            cur2 == cur.remove(i)
        },
    ensures
        0 <= done <= c[i].len(),
        removed + done <= -count,
        cur2.take(i) == c.take(i),
        count_done(count, removed + done) || i == 0 ==> rem_parts_right(c, v, count) == cur2,
        !(count_done(count, removed + done) || i == 0) ==> rem_parts_right(c, v, count)
            == rem_parts_right(c.take(i), v, count_left(count, removed + done)) + cur2.skip(i),
{
    let left = count_left(count, removed);
    let s = c.take(i + 1);
    lemma_take_step(cur, c, i);
    lemma_rem_count(c[i], v, left);
    assert(s.last() == c[i]);
    assert(s.drop_last() =~= c.take(i));
    let tail = cur.skip(i + 1);
    if done == 0 {
        lemma_rem_none(c[i], v, left);
        assert(cur.skip(i) =~= seq![kept] + tail);
    } else if kept.len() > 0 {
        assert(cur2.skip(i) =~= seq![kept] + tail);
        assert(cur2.take(i) =~= cur.take(i));
    } else {
        assert(cur2.skip(i) =~= tail);
    }
    let rest = if count_done(left, done) {
        s.drop_last()
    } else {
        rem_parts_right(s.drop_last(), v, count_left(left, done))
    };
    assert(count_done(left, done) == count_done(count, removed + done));
    assert(!count_done(left, done) ==> count_left(left, done) == count_left(
        count,
        removed + done,
    ));
    if i == 0 {
        assert(c.take(0) =~= Seq::<Seq<Seq<u8>>>::empty());
    }
    if kept.len() == 0 {
        assert(rest + tail =~= rest + cur2.skip(i));
    } else {
        assert(rest.push(kept) + tail =~= rest + cur2.skip(i));
    }
    if count_done(count, removed + done) || i == 0 {
        assert(cur2.take(i) + cur2.skip(i) =~= cur2);
    }
}

/// What a removal that walks the list has reached when it stands at
/// node `i` of the list `c`, which is node `jj` of `cur`, what the walk
/// has made of the list so far, with `removed` values removed: the nodes
/// still to come are as they were, and the nodes of the list after the
/// whole removal are those behind the walk and what the rest of the walk
/// makes of the nodes to come.
pub open spec fn rem_walk_inv(
    c: Chain,
    cur: Chain,
    v: Seq<u8>,
    count: int,
    removed: int,
    i: int,
    jj: int,
) -> bool {
    let goal = rem_parts(c.parts, v, count);
    &&& 0 <= removed
    &&& 0 <= i < c.keys.len()
    &&& 0 <= jj < cur.keys.len()
    &&& c.parts.len() == c.keys.len()
    &&& cur.parts.len() == cur.keys.len()
    &&& cur.zkeys.len() == cur.keys.len()
    &&& !count_done(count, removed)
    &&& if count >= 0 {
        &&& cur.keys.skip(jj) == c.keys.skip(i)
        &&& cur.parts.skip(jj) == c.parts.skip(i)
        &&& goal == cur.parts.take(jj) + rem_parts_left(
            c.parts.skip(i),
            v,
            count_left(count, removed),
        )
    } else {
        &&& jj == i
        &&& cur.keys.take(i + 1) == c.keys.take(i + 1)
        &&& cur.parts.take(i + 1) == c.parts.take(i + 1)
        &&& goal == rem_parts_right(c.parts.take(i + 1), v, count_left(count, removed))
            + cur.parts.skip(i + 1)
    }
}

/// The chain after its node `jj` has lost `done` values and holds `kept`:
/// as it was where nothing was lost, without the node where nothing is
/// left, else with the node's new values.
pub open spec fn chain_after_rem(cur: Chain, jj: int, kept: Seq<Seq<u8>>, done: int) -> Chain {
    if done == 0 {
        cur
    } else if kept.len() > 0 {
        Chain { parts: cur.parts.update(jj, kept), ..cur }
    } else {
        chain_without(cur, jj)
    }
}

/// Where in the chain a walk stands after node `jj` has lost `done`
/// values and holds `kept`.
pub open spec fn place_after_rem(count: int, jj: int, kept: Seq<Seq<u8>>, done: int) -> int {
    if count < 0 {
        jj - 1
    } else if done == 0 || kept.len() > 0 {
        jj + 1
    } else {
        jj
    }
}

/// One step of the walk of a removal.
pub proof fn lemma_rem_walk(
    c: Chain,
    cur: Chain,
    v: Seq<u8>,
    count: int,
    removed: int,
    done: int,
    i: int,
    jj: int,
)
    requires
        rem_walk_inv(c, cur, v, count, removed, i, jj),
        c.parts[i].len() > 0,
        done == cur.parts[jj].len() - rem_values(
            cur.parts[jj],
            v,
            count_left(count, removed),
        ).len(),
    ensures
        ({
            let kept = rem_values(cur.parts[jj], v, count_left(count, removed));
            let cur2 = chain_after_rem(cur, jj, kept, done);
            let jj2 = place_after_rem(count, jj, kept, done);
            let i2 = if count >= 0 {
                i + 1
            } else {
                i - 1
            };
            let last = if count >= 0 {
                jj == cur.keys.len() - 1
            } else {
                jj == 0
            };
            &&& 0 <= done
            &&& count > 0 ==> removed + done <= count
            &&& count < 0 ==> removed + done <= -count
            &&& last == (if count >= 0 {
                i == c.keys.len() - 1
            } else {
                i == 0
            })
            &&& if count_done(count, removed + done) || last {
                cur2.parts == rem_parts(c.parts, v, count)
            } else {
                &&& rem_walk_inv(c, cur2, v, count, removed + done, i2, jj2)
                &&& cur2.keys[jj2] == (if count >= 0 {
                    cur.keys[jj + 1]
                } else {
                    cur.keys[jj - 1]
                })
            }
        }),
{
    let kept = rem_values(cur.parts[jj], v, count_left(count, removed));
    let cur2 = chain_after_rem(cur, jj, kept, done);
    let jj2 = place_after_rem(count, jj, kept, done);
    if count >= 0 {
        lemma_skip_step(cur.keys, c.keys, jj, i);
        lemma_skip_step(cur.parts, c.parts, jj, i);
        lemma_rem_step_left(
            c.parts,
            cur.parts,
            cur2.parts,
            v,
            count,
            removed,
            done,
            i,
            jj,
            jj2,
            kept,
        );
        if done != 0 && kept.len() == 0 {
            assert(cur2.keys.skip(jj2) =~= c.keys.skip(i + 1));
        } else {
            assert(cur2.keys.skip(jj2) =~= c.keys.skip(i + 1));
        }
    } else {
        lemma_take_step(cur.keys, c.keys, i);
        lemma_take_step(cur.parts, c.parts, i);
        lemma_rem_step_right(c.parts, cur.parts, cur2.parts, v, count, removed, done, i, kept);
        if i > 0 {
            if done != 0 && kept.len() == 0 {
                assert(cur2.keys.take(i) =~= c.keys.take(i));
            } else {
                assert(cur2.keys.take(i) =~= c.keys.take(i));
            }
        }
    }
}

/// Where a walk of a removal starts.
pub proof fn lemma_rem_walk_start(c: Chain, v: Seq<u8>, count: int)
    requires
        c.keys.len() > 0,
        c.parts.len() == c.keys.len(),
        c.zkeys.len() == c.keys.len(),
    ensures
        rem_walk_inv(
            c,
            c,
            v,
            count,
            0,
            if count >= 0 {
                0
            } else {
                c.keys.len() - 1
            },
            if count >= 0 {
                0
            } else {
                c.keys.len() - 1
            },
        ),
{
    let n = c.keys.len() as int;
    let goal = rem_parts(c.parts, v, count);
    assert(c.parts.skip(0) =~= c.parts);
    assert(c.parts.take(n) =~= c.parts);
    assert(c.parts.take(0) + goal =~= goal);
    assert(goal + c.parts.skip(n) =~= goal);
}

} // verus!
