use crate::types::{
    bytes_eq, le16, le16_bytes, le32, le32_bytes, lemma_le16_bytes_of, lemma_le16_of_bytes,
    lemma_le32_bytes_of, lemma_le32_of_bytes, LenType,
};
use crate::error::RrError;
use crate::wrap_db::WrapDb;
use vstd::prelude::*;
use vstd::slice::slice_subrange;

verus! {

/// Bytes of the count that a packed list starts with.
pub const LEN_INIT: usize = 4;

/// Bytes of each of the two length marks that enclose a value.
pub const SIZE_NODE_TYPE: usize = 2;

/// The longest value that a length mark can describe.
pub const MAX_VALUE_BYTES: usize = 0xFFFF;

/// One value as the buffer holds it: its length in two bytes, the value,
/// and the length once more, so that the buffer can be walked both ways.
pub open spec fn node_bytes(value: Seq<u8>) -> Seq<u8> {
    le16_bytes(value.len() as int) + value + le16_bytes(value.len() as int)
}

/// The values of a list one after the other, each as `node_bytes` has it.
#[verifier::opaque]
pub open spec fn body_bytes(s: Seq<Seq<u8>>) -> Seq<u8>
    decreases s.len(),
{
    if s.len() == 0 {
        Seq::empty()
    } else {
        node_bytes(s[0]) + body_bytes(s.drop_first())
    }
}

/// A whole packed list: the count of its values in four bytes, then the
/// values.
pub open spec fn list_bytes(s: Seq<Seq<u8>>) -> Seq<u8> {
    le32_bytes(s.len() as int) + body_bytes(s)
}

/// Whether a packed list can hold `s`: the count fits its four bytes and
/// each length its two.
pub open spec fn values_fit(s: Seq<Seq<u8>>) -> bool {
    &&& s.len() <= u32::MAX
    &&& forall|i: int| 0 <= i < s.len() ==> (#[trigger] s[i]).len() <= 0xFFFF
}

/// The values that the bytes after the count hold, if they are well formed:
/// value after value, both length marks of each agreeing, nothing left over.
#[verifier::opaque]
pub open spec fn parse_body(b: Seq<u8>) -> Option<Seq<Seq<u8>>>
    decreases b.len(),
{
    if b.len() == 0 {
        Some(Seq::empty())
    } else if b.len() < 4 {
        None
    } else {
        let n = le16(b);
        if n + 4 > b.len() || le16(b.subrange(n + 2, n + 4)) != n {
            None
        } else {
            match parse_body(b.skip(n + 4)) {
                Some(rest) => Some(seq![b.subrange(2, n + 2)] + rest),
                None => None,
            }
        }
    }
}

/// The values that a buffer holds, if it is a well-formed packed list.
pub open spec fn parse_list(b: Seq<u8>) -> Option<Seq<Seq<u8>>> {
    if b.len() < 4 {
        None
    } else {
        match parse_body(b.skip(4)) {
            Some(s) => if s.len() == le32(b) {
                Some(s)
            } else {
                None
            },
            None => None,
        }
    }
}

/// Where value `i` starts in the buffer of the list `s`, the count
/// included; for `i == s.len()`, where the buffer ends.
pub open spec fn offset_of(s: Seq<Seq<u8>>, i: int) -> int {
    4 + body_bytes(s.take(i)).len() as int
}

/// The bytes of two runs of values are the bytes of the first, then those
/// of the second.
pub proof fn lemma_body_concat(a: Seq<Seq<u8>>, b: Seq<Seq<u8>>)
    ensures
        body_bytes(a + b) == body_bytes(a) + body_bytes(b),
    decreases a.len(),
{
    reveal_with_fuel(body_bytes, 2);
    if a.len() == 0 {
        assert(a + b =~= b);
        assert(body_bytes(a) + body_bytes(b) =~= body_bytes(b));
    } else {
        lemma_body_concat(a.drop_first(), b);
        assert((a + b).drop_first() =~= a.drop_first() + b);
        assert((a + b)[0] == a[0]);
        assert(body_bytes(a + b) =~= body_bytes(a) + body_bytes(b));
    }
}

/// The bytes of a single value are its `node_bytes`.
pub proof fn lemma_body_single(v: Seq<u8>)
    ensures
        body_bytes(seq![v]) == node_bytes(v),
{
    reveal_with_fuel(body_bytes, 2);
    assert(seq![v].drop_first() =~= Seq::<Seq<u8>>::empty());
    assert(body_bytes(Seq::<Seq<u8>>::empty()) =~= Seq::<u8>::empty());
    assert(seq![v][0] == v);
    assert(body_bytes(seq![v]) =~= node_bytes(v) + body_bytes(seq![v].drop_first()));
    assert(body_bytes(seq![v]) =~= node_bytes(v));
}

/// The buffer splits at every value: the bytes before value `i`, then the
/// bytes from it on.
pub proof fn lemma_body_split(s: Seq<Seq<u8>>, i: int)
    requires
        0 <= i <= s.len(),
    ensures
        body_bytes(s) == body_bytes(s.take(i)) + body_bytes(s.skip(i)),
        i < s.len() ==> body_bytes(s.skip(i)) == node_bytes(s[i]) + body_bytes(s.skip(i + 1)),
        i < s.len() ==> body_bytes(s.take(i + 1)) == body_bytes(s.take(i)) + node_bytes(s[i]),
        i < s.len() ==> offset_of(s, i + 1) == offset_of(s, i) + 4 + s[i].len(),
        offset_of(s, i) <= 4 + body_bytes(s).len(),
{
    reveal_with_fuel(body_bytes, 2);
    lemma_body_concat(s.take(i), s.skip(i));
    assert(s.take(i) + s.skip(i) =~= s);
    if i < s.len() {
        assert(s.skip(i).drop_first() =~= s.skip(i + 1));
        assert(s.skip(i)[0] == s[i]);
        lemma_body_concat(s.take(i), seq![s[i]]);
        lemma_body_single(s[i]);
        assert(s.take(i) + seq![s[i]] =~= s.take(i + 1));
    }
}

/// Parsing the bytes of a list of fitting values gives the values back.
pub proof fn lemma_parse_body_bytes(s: Seq<Seq<u8>>)
    requires
        forall|i: int| 0 <= i < s.len() ==> (#[trigger] s[i]).len() <= 0xFFFF,
    ensures
        parse_body(body_bytes(s)) == Some(s),
    decreases s.len(),
{
    reveal_with_fuel(body_bytes, 2);
    reveal_with_fuel(parse_body, 2);
    if s.len() == 0 {
    } else {
        let v = s[0];
        let rest = s.drop_first();
        let b = body_bytes(s);
        let n = v.len() as int;
        lemma_le16_of_bytes(n);
        assert(b =~= le16_bytes(n) + v + le16_bytes(n) + body_bytes(rest));
        assert(b.subrange(0, 2) =~= le16_bytes(n));
        assert(le16(b) == le16(le16_bytes(n)));
        assert(b.subrange(n + 2, n + 4) =~= le16_bytes(n));
        assert(b.subrange(2, n + 2) =~= v);
        assert(b.skip(n + 4) =~= body_bytes(rest));
        assert forall|i: int| 0 <= i < rest.len() implies (#[trigger] rest[i]).len() <= 0xFFFF by {
            assert(rest[i] == s[i + 1]);
        }
        lemma_parse_body_bytes(rest);
        assert(seq![v] + rest =~= s);
    }
}

/// What parses as values is the bytes of those values, and they fit.
pub proof fn lemma_body_bytes_parse(b: Seq<u8>)
    requires
        parse_body(b) is Some,
    ensures
        body_bytes(parse_body(b).unwrap()) == b,
        forall|i: int|
            0 <= i < parse_body(b).unwrap().len() ==> (#[trigger] parse_body(b).unwrap()[i]).len()
                <= 0xFFFF,
    decreases b.len(),
{
    reveal_with_fuel(body_bytes, 2);
    reveal_with_fuel(parse_body, 2);
    if b.len() == 0 {
        assert(body_bytes(Seq::<Seq<u8>>::empty()) =~= b);
    } else {
        let n = le16(b);
        let v = b.subrange(2, n + 2);
        let rest = parse_body(b.skip(n + 4)).unwrap();
        let s = parse_body(b).unwrap();
        lemma_body_bytes_parse(b.skip(n + 4));
        assert(s == seq![v] + rest);
        assert(s.drop_first() =~= rest);
        assert(s[0] == v);
        lemma_le16_bytes_of(b.subrange(0, 2));
        lemma_le16_bytes_of(b.subrange(n + 2, n + 4));
        assert(le16(b.subrange(0, 2)) == le16(b));
        assert(le16_bytes(n) == b.subrange(0, 2));
        assert(le16_bytes(n) == b.subrange(n + 2, n + 4));
        assert(body_bytes(s) =~= b);
        assert forall|i: int| 0 <= i < s.len() implies (#[trigger] s[i]).len() <= 0xFFFF by {
            if i > 0 {
                assert(s[i] == rest[i - 1]);
            }
        }
    }
}

/// Parsing the buffer of a list of fitting values gives the values back.
pub proof fn lemma_parse_list_bytes(s: Seq<Seq<u8>>)
    requires
        values_fit(s),
    ensures
        parse_list(list_bytes(s)) == Some(s),
        list_bytes(s).len() == 4 + body_bytes(s).len(),
{
    lemma_parse_body_bytes(s);
    lemma_le32_of_bytes(s.len() as int);
    let b = list_bytes(s);
    assert(b.skip(4) =~= body_bytes(s));
    assert(le32(b) == le32(le32_bytes(s.len() as int)));
}

/// What parses as a list is the buffer of its values, and they fit.
pub proof fn lemma_list_bytes_parse(b: Seq<u8>)
    requires
        parse_list(b) is Some,
    ensures
        list_bytes(parse_list(b).unwrap()) == b,
        values_fit(parse_list(b).unwrap()),
{
    lemma_body_bytes_parse(b.skip(4));
    lemma_le32_bytes_of(b.subrange(0, 4));
    assert(le32(b.subrange(0, 4)) == le32(b));
    assert(b =~= b.subrange(0, 4) + b.skip(4));
}

/// Value `k` of a list lies in the list's buffer as `node_bytes` has it,
/// from `offset_of(s, k)` on.
pub proof fn lemma_node_at(s: Seq<Seq<u8>>, k: int)
    requires
        values_fit(s),
        0 <= k < s.len(),
    ensures
        offset_of(s, k + 1) == offset_of(s, k) + 4 + s[k].len(),
        offset_of(s, k + 1) <= list_bytes(s).len(),
        list_bytes(s).subrange(offset_of(s, k), offset_of(s, k + 1)) == node_bytes(s[k]),
        le16(list_bytes(s).subrange(offset_of(s, k), offset_of(s, k) + 2)) == s[k].len(),
        list_bytes(s).subrange(offset_of(s, k) + 2, offset_of(s, k + 1) - 2) == s[k],
        le16(list_bytes(s).subrange(offset_of(s, k + 1) - 2, offset_of(s, k + 1))) == s[k].len(),
{
    lemma_body_split(s, k);
    lemma_body_split(s, k + 1);
    let n = s[k].len() as int;
    let o = offset_of(s, k);
    let b = list_bytes(s);
    lemma_le16_of_bytes(n);
    assert(b =~= le32_bytes(s.len() as int) + body_bytes(s.take(k)) + node_bytes(s[k])
        + body_bytes(s.skip(k + 1)));
    assert(b.subrange(o, o + 4 + n) =~= node_bytes(s[k]));
    assert(b.subrange(o, o + 2) =~= le16_bytes(n));
    assert(b.subrange(o + 2, o + 2 + n) =~= s[k]);
    assert(b.subrange(o + 2 + n, o + 4 + n) =~= le16_bytes(n));
}

/// Where the buffer of a list ends.
pub proof fn lemma_offset_ends(s: Seq<Seq<u8>>)
    ensures
        offset_of(s, 0) == 4,
        offset_of(s, s.len() as int) == list_bytes(s).len(),
{
    reveal_with_fuel(body_bytes, 2);
    assert(s.take(0) =~= Seq::<Seq<u8>>::empty());
    assert(s.take(s.len() as int) =~= s);
}

/// The empty list has no bytes after its count.
pub proof fn lemma_body_empty()
    ensures
        body_bytes(Seq::<Seq<u8>>::empty()) == Seq::<u8>::empty(),
{
    reveal_with_fuel(body_bytes, 2);
}

/// One step of parsing: what the bytes hold is their first value, then
/// what the bytes after it hold.
pub proof fn lemma_parse_step(c: Seq<u8>)
    ensures
        c.len() == 0 ==> parse_body(c) == Some(Seq::<Seq<u8>>::empty()),
        0 < c.len() < 4 ==> parse_body(c) is None,
        c.len() >= 4 && (le16(c) + 4 > c.len() || le16(c.subrange(le16(c) + 2, le16(c) + 4))
            != le16(c)) ==> parse_body(c) is None,
        c.len() >= 4 && le16(c) + 4 <= c.len() && le16(c.subrange(le16(c) + 2, le16(c) + 4))
            == le16(c) ==> parse_body(c) == (match parse_body(c.skip(le16(c) + 4)) {
            Some(rest) => Some(seq![c.subrange(2, le16(c) + 2)] + rest),
            None => None,
        }),
{
    reveal_with_fuel(parse_body, 2);
}

/// The buffer of a list with `v` put before value `i`.
pub proof fn lemma_insert_bytes(s: Seq<Seq<u8>>, i: int, v: Seq<u8>)
    requires
        values_fit(s),
        s.len() < u32::MAX,
        v.len() <= 0xFFFF,
        0 <= i <= s.len(),
    ensures
        values_fit(s.insert(i, v)),
        4 <= offset_of(s, i) <= list_bytes(s).len(),
        list_bytes(s.insert(i, v)) == le32_bytes(s.len() as int + 1) + list_bytes(s).subrange(
            4,
            offset_of(s, i),
        ) + node_bytes(v) + list_bytes(s).skip(offset_of(s, i)),
{
    let t = s.insert(i, v);
    lemma_body_split(s, i);
    assert(t =~= s.take(i) + seq![v] + s.skip(i));
    lemma_body_concat(s.take(i), seq![v]);
    lemma_body_single(v);
    lemma_body_concat(s.take(i) + seq![v], s.skip(i));
    assert forall|k: int| 0 <= k < t.len() implies (#[trigger] t[k]).len() <= 0xFFFF by {
        if k < i {
            assert(t[k] == s[k]);
        } else if k > i {
            assert(t[k] == s[k - 1]);
        }
    }
    let b = list_bytes(s);
    let o = offset_of(s, i);
    assert(b.subrange(4, o) =~= body_bytes(s.take(i)));
    assert(b.skip(o) =~= body_bytes(s.skip(i)));
}

/// A value more makes the buffer longer by the value and its two marks.
pub proof fn lemma_insert_size(s: Seq<Seq<u8>>, i: int, v: Seq<u8>)
    requires
        values_fit(s),
        s.len() < u32::MAX,
        v.len() <= 0xFFFF,
        0 <= i <= s.len(),
    ensures
        list_bytes(s.insert(i, v)).len() == list_bytes(s).len() + 4 + v.len(),
        list_bytes(s.push(v)).len() == list_bytes(s).len() + 4 + v.len(),
        list_bytes(seq![v] + s).len() == list_bytes(s).len() + 4 + v.len(),
        list_bytes(s).len() >= 4 + 4 * s.len(),
{
    lemma_insert_bytes(s, i, v);
    lemma_insert_bytes(s, 0, v);
    lemma_insert_bytes(s, s.len() as int, v);
    assert(s.insert(0, v) =~= seq![v] + s);
    assert(s.insert(s.len() as int, v) =~= s.push(v));
    lemma_size_floor(s);
}

/// Every value takes four bytes at least.
pub proof fn lemma_size_floor(s: Seq<Seq<u8>>)
    ensures
        list_bytes(s).len() >= 4 + 4 * s.len(),
        body_bytes(s).len() >= 4 * s.len(),
    decreases s.len(),
{
    reveal_with_fuel(body_bytes, 2);
    if s.len() > 0 {
        lemma_size_floor(s.drop_first());
    }
}

/// The buffer of a list without its values `i` to `j - 1`.
pub proof fn lemma_remove_bytes(s: Seq<Seq<u8>>, i: int, j: int)
    requires
        values_fit(s),
        0 <= i <= j <= s.len(),
    ensures
        values_fit(s.take(i) + s.skip(j)),
        4 <= offset_of(s, i) <= offset_of(s, j) <= list_bytes(s).len(),
        list_bytes(s.take(i) + s.skip(j)) == le32_bytes(s.len() - (j - i)) + list_bytes(
            s,
        ).subrange(4, offset_of(s, i)) + list_bytes(s).skip(offset_of(s, j)),
{
    let t = s.take(i) + s.skip(j);
    lemma_body_split(s, j);
    lemma_body_split(s.take(j), i);
    assert(s.take(j).take(i) =~= s.take(i));
    lemma_body_concat(s.take(i), s.skip(j));
    assert forall|k: int| 0 <= k < t.len() implies (#[trigger] t[k]).len() <= 0xFFFF by {
        if k < i {
            assert(t[k] == s[k]);
        } else {
            assert(t[k] == s[k - i + j]);
        }
    }
    let b = list_bytes(s);
    assert(b.subrange(4, offset_of(s, i)) =~= body_bytes(s.take(i)));
    assert(b.skip(offset_of(s, j)) =~= body_bytes(s.skip(j)));
}

/// How many of the values of `s` are `v`.
pub open spec fn count_of(s: Seq<Seq<u8>>, v: Seq<u8>) -> nat
    decreases s.len(),
{
    if s.len() == 0 {
        0
    } else {
        count_of(s.drop_last(), v) + if s.last() == v {
            1nat
        } else {
            0nat
        }
    }
}

/// Whether value `i` of `s` is the first that is `v`.
pub open spec fn first_at(s: Seq<Seq<u8>>, v: Seq<u8>, i: int) -> bool {
    &&& 0 <= i < s.len()
    &&& s[i] == v
    &&& forall|j: int| 0 <= j < i ==> s[j] != v
}

/// The values of `s` whose places lie between `start` and `stop`, both
/// included.
pub open spec fn range_values(s: Seq<Seq<u8>>, start: int, stop: int) -> Seq<Seq<u8>> {
    let a = if start < 0 {
        0
    } else {
        start
    };
    let b = if stop + 1 > s.len() {
        s.len() as int
    } else {
        stop + 1
    };
    if a < b {
        s.subrange(a, b)
    } else {
        Seq::empty()
    }
}

/// The place in a list of `len` values that `index` stands for: a
/// negative `index` counts from the end, and what lies beyond either end
/// is taken for the nearest place.
pub open spec fn place_of(len: int, index: int) -> int {
    if index < 0 {
        if len + index < 0 {
            0
        } else {
            len + index
        }
    } else if index >= len {
        len - 1
    } else {
        index
    }
}

/// Whether removing `count` values `v` takes value `i` of `s` away. It
/// does if the value is `v` and, for a positive `count`, fewer than `count`
/// values `v` stand before it; for a negative `count`, fewer than
/// `-count` values `v` stand behind it; for 0, always.
pub open spec fn rem_hits(s: Seq<Seq<u8>>, v: Seq<u8>, count: int, i: int) -> bool {
    &&& s[i] == v
    &&& (count == 0 || (count > 0 && count_of(s.take(i), v) < count) || (count < 0 && count_of(
        s.skip(i + 1),
        v,
    ) < -count))
}

/// Those of the first `k` values of `s` that removing `count` values `v`
/// leaves, in their order.
pub open spec fn rem_kept(s: Seq<Seq<u8>>, v: Seq<u8>, count: int, k: int) -> Seq<Seq<u8>>
    decreases k,
{
    if k <= 0 {
        Seq::empty()
    } else if rem_hits(s, v, count, k - 1) {
        rem_kept(s, v, count, k - 1)
    } else {
        rem_kept(s, v, count, k - 1).push(s[k - 1])
    }
}

/// The list that removing `count` values `v` from `s` leaves.
pub open spec fn rem_values(s: Seq<Seq<u8>>, v: Seq<u8>, count: int) -> Seq<Seq<u8>> {
    rem_kept(s, v, count, s.len() as int)
}

/// The values of the vectors of `r`.
pub open spec fn views(r: Seq<Vec<u8>>) -> Seq<Seq<u8>> {
    Seq::new(r.len(), |i: int| r[i]@)
}

/// The values `v` of two runs are those of the first and those of the
/// second.
pub proof fn lemma_count_concat(a: Seq<Seq<u8>>, b: Seq<Seq<u8>>, v: Seq<u8>)
    ensures
        count_of(a + b, v) == count_of(a, v) + count_of(b, v),
    decreases b.len(),
{
    if b.len() == 0 {
        assert(a + b =~= a);
    } else {
        lemma_count_concat(a, b.drop_last(), v);
        assert((a + b).drop_last() =~= a + b.drop_last());
        assert((a + b).last() == b.last());
    }
}

/// The values `v` of a list are those before value `i`, value `i` if it
/// is one, and those behind it.
pub proof fn lemma_count_split(s: Seq<Seq<u8>>, v: Seq<u8>, i: int)
    requires
        0 <= i < s.len(),
    ensures
        count_of(s, v) == count_of(s.take(i), v) + (if s[i] == v {
            1nat
        } else {
            0nat
        }) + count_of(s.skip(i + 1), v),
        count_of(s.take(i + 1), v) == count_of(s.take(i), v) + (if s[i] == v {
            1nat
        } else {
            0nat
        }),
        count_of(s.take(i), v) <= i,
{
    assert(s.take(i + 1).drop_last() =~= s.take(i));
    assert(s.take(i + 1).last() == s[i]);
    lemma_count_concat(s.take(i + 1), s.skip(i + 1), v);
    assert(s.take(i + 1) + s.skip(i + 1) =~= s);
    lemma_count_bound(s.take(i), v);
}

/// A list holds no more values `v` than values.
pub proof fn lemma_count_bound(s: Seq<Seq<u8>>, v: Seq<u8>)
    ensures
        count_of(s, v) <= s.len(),
    decreases s.len(),
{
    if s.len() > 0 {
        lemma_count_bound(s.drop_last(), v);
    }
}

/// What is left of the first `k` values are values of the list, no more
/// than `k` of them.
pub proof fn lemma_rem_kept_fit(s: Seq<Seq<u8>>, v: Seq<u8>, count: int, k: int)
    requires
        values_fit(s),
        0 <= k <= s.len(),
    ensures
        rem_kept(s, v, count, k).len() <= k,
        values_fit(rem_kept(s, v, count, k)),
    decreases k,
{
    if k > 0 {
        lemma_rem_kept_fit(s, v, count, k - 1);
    }
}

/// How many values a removal takes away: all that are `v` for a `count`
/// of 0, else as many of them as `count` says, or all where there are
/// fewer.
pub open spec fn rem_count(s: Seq<Seq<u8>>, v: Seq<u8>, count: int) -> int {
    let all = count_of(s, v) as int;
    let most = if count < 0 {
        -count
    } else {
        count
    };
    if count == 0 || all < most {
        all
    } else {
        most
    }
}

/// How many of the first `k` values a removal takes away.
proof fn lemma_rem_kept_len(s: Seq<Seq<u8>>, v: Seq<u8>, count: int, k: int)
    requires
        0 <= k <= s.len(),
    ensures
        count == 0 ==> k - rem_kept(s, v, count, k).len() == count_of(s.take(k), v),
        count > 0 ==> k - rem_kept(s, v, count, k).len() == (if count_of(s.take(k), v) < count {
            count_of(s.take(k), v) as int
        } else {
            count
        }),
        count < 0 ==> k - rem_kept(s, v, count, k).len() == (if count_of(s.take(k), v) as int
            > count_of(s, v) + count && count_of(s, v) + count > 0 {
            count_of(s.take(k), v) - (count_of(s, v) + count)
        } else if count_of(s, v) + count > 0 {
            0
        } else {
            count_of(s.take(k), v) as int
        }),
    decreases k,
{
    if k == 0 {
        assert(s.take(0) =~= Seq::<Seq<u8>>::empty());
    } else {
        lemma_rem_kept_len(s, v, count, k - 1);
        lemma_count_split(s, v, k - 1);
    }
}

/// A removal takes `rem_count` values away.
pub proof fn lemma_rem_count(s: Seq<Seq<u8>>, v: Seq<u8>, count: int)
    ensures
        s.len() - rem_values(s, v, count).len() == rem_count(s, v, count),
        0 <= rem_count(s, v, count) <= s.len(),
{
    lemma_rem_kept_len(s, v, count, s.len() as int);
    assert(s.take(s.len() as int) =~= s);
    lemma_count_bound(s, v);
}

/// A removal that takes none of the first `k` values away leaves them as
/// they are.
proof fn lemma_rem_kept_all(s: Seq<Seq<u8>>, v: Seq<u8>, count: int, k: int)
    requires
        0 <= k <= s.len(),
    ensures
        rem_kept(s, v, count, k).len() <= k,
        rem_kept(s, v, count, k).len() == k ==> rem_kept(s, v, count, k) == s.take(k),
        (forall|i: int| 0 <= i < k ==> !rem_hits(s, v, count, i)) ==> rem_kept(s, v, count, k)
            == s.take(k),
    decreases k,
{
    if k == 0 {
        assert(s.take(0) =~= Seq::<Seq<u8>>::empty());
    } else {
        lemma_rem_kept_all(s, v, count, k - 1);
        assert(s.take(k) =~= s.take(k - 1).push(s[k - 1]));
    }
}

/// A removal that takes nothing away leaves the list as it is.
pub proof fn lemma_rem_none(s: Seq<Seq<u8>>, v: Seq<u8>, count: int)
    requires
        rem_values(s, v, count).len() == s.len(),
    ensures
        rem_values(s, v, count) == s,
{
    lemma_rem_kept_all(s, v, count, s.len() as int);
    assert(s.take(s.len() as int) =~= s);
}

/// What a removal from two runs of values leaves of the first `k` values
/// of the first run.
proof fn lemma_rem_kept_front(a: Seq<Seq<u8>>, b: Seq<Seq<u8>>, v: Seq<u8>, count: int, k: int)
    requires
        0 <= k <= a.len(),
    ensures
        rem_kept(a + b, v, count, k) == (if count >= 0 {
            rem_kept(a, v, count, k)
        } else if count + count_of(b, v) < 0 {
            rem_kept(a, v, count + count_of(b, v), k)
        } else {
            a.take(k)
        }),
    decreases k,
{
    if k == 0 {
        assert(a.take(0) =~= Seq::<Seq<u8>>::empty());
    } else {
        let s = a + b;
        let i = k - 1;
        lemma_rem_kept_front(a, b, v, count, k - 1);
        assert(s.take(i) =~= a.take(i));
        assert(s.skip(i + 1) =~= a.skip(i + 1) + b);
        lemma_count_concat(a.skip(i + 1), b, v);
        assert(s[i] == a[i]);
        assert(a.take(k) =~= a.take(k - 1).push(a[i]));
    }
}

/// What a removal from two runs of values leaves of the first `t` values
/// of the second run.
proof fn lemma_rem_kept_back(a: Seq<Seq<u8>>, b: Seq<Seq<u8>>, v: Seq<u8>, count: int, t: int)
    requires
        0 <= t <= b.len(),
    ensures
        rem_kept(a + b, v, count, a.len() + t) == rem_kept(a + b, v, count, a.len() as int) + (
        if count <= 0 {
            rem_kept(b, v, count, t)
        } else if count - count_of(a, v) > 0 {
            rem_kept(b, v, count - count_of(a, v), t)
        } else {
            b.take(t)
        }),
    decreases t,
{
    let s = a + b;
    let n = a.len() as int;
    if t == 0 {
        assert(b.take(0) =~= Seq::<Seq<u8>>::empty());
        assert(rem_kept(s, v, count, n) + Seq::<Seq<u8>>::empty() =~= rem_kept(s, v, count, n));
    } else {
        let i = t - 1;
        lemma_rem_kept_back(a, b, v, count, t - 1);
        assert(s.take(n + i) =~= a + b.take(i));
        lemma_count_concat(a, b.take(i), v);
        assert(s.skip(n + i + 1) =~= b.skip(i + 1));
        assert(s[n + i] == b[i]);
        assert(b.take(t) =~= b.take(t - 1).push(b[i]));
        let head = rem_kept(s, v, count, n);
        let tail = if count <= 0 {
            rem_kept(b, v, count, t - 1)
        } else if count - count_of(a, v) > 0 {
            rem_kept(b, v, count - count_of(a, v), t - 1)
        } else {
            b.take(t - 1)
        };
        assert((head + tail).push(b[i]) =~= head + tail.push(b[i]));
    }
}

/// A removal from two runs of values, one after the other, is a removal
/// from each: the run that the removal reaches first loses what the
/// count says, the other what is then left of the count.
pub proof fn lemma_rem_concat(a: Seq<Seq<u8>>, b: Seq<Seq<u8>>, v: Seq<u8>, count: int)
    ensures
        rem_values(a + b, v, count) == (if count >= 0 {
            rem_values(a, v, count)
        } else if count + count_of(b, v) < 0 {
            rem_values(a, v, count + count_of(b, v))
        } else {
            a
        }) + (if count <= 0 {
            rem_values(b, v, count)
        } else if count - count_of(a, v) > 0 {
            rem_values(b, v, count - count_of(a, v))
        } else {
            b
        }),
{
    lemma_rem_kept_front(a, b, v, count, a.len() as int);
    lemma_rem_kept_back(a, b, v, count, b.len() as int);
    assert(a.take(a.len() as int) =~= a);
    assert(b.take(b.len() as int) =~= b);
}

/// What a removal leaves of the first `k` values takes no more bytes than
/// they did.
proof fn lemma_rem_kept_size(s: Seq<Seq<u8>>, v: Seq<u8>, count: int, k: int)
    requires
        0 <= k <= s.len(),
    ensures
        body_bytes(rem_kept(s, v, count, k)).len() <= body_bytes(s.take(k)).len(),
    decreases k,
{
    if k == 0 {
        assert(s.take(0) =~= Seq::<Seq<u8>>::empty());
    } else {
        lemma_rem_kept_size(s, v, count, k - 1);
        lemma_body_split(s, k - 1);
        let kept = rem_kept(s, v, count, k - 1);
        lemma_body_concat(kept, seq![s[k - 1]]);
        lemma_body_single(s[k - 1]);
        assert(kept + seq![s[k - 1]] =~= kept.push(s[k - 1]));
    }
}

/// A removal makes the buffer of a list no longer.
pub proof fn lemma_rem_size(s: Seq<Seq<u8>>, v: Seq<u8>, count: int)
    ensures
        list_bytes(rem_values(s, v, count)).len() <= list_bytes(s).len(),
{
    lemma_rem_kept_size(s, v, count, s.len() as int);
    assert(s.take(s.len() as int) =~= s);
}

/// One value inside a buffer: the buffer, the place where the value's
/// first length mark starts, and the bytes that the value takes with both
/// of its marks.
pub struct ZipListNode<'a>(pub &'a [u8], pub usize, pub usize);

impl<'a> ZipListNode<'a> {
    /// The node lies inside its buffer and has room for both marks.
    pub open spec fn wf(&self) -> bool {
        &&& self.2 >= 4
        &&& self.1 + self.2 <= self.0@.len()
    }

    /// The value between the two marks.
    pub open spec fn spec_value(&self) -> Seq<u8> {
        self.0@.subrange(self.1 + 2, self.1 + self.2 - 2)
    }

    /// The node as it lies in its buffer, both marks included.
    pub open spec fn as_bytes(&self) -> Seq<u8> {
        self.0@.subrange(self.1 as int, self.1 + self.2)
    }

    /// The node that starts `bytes`, if `bytes` is long enough for what its
    /// first length mark announces.
    pub fn from_start(bytes: &'a [u8]) -> (r: Option<Self>)
        ensures
            match r {
                Some(node) => {
                    &&& bytes@.len() >= 2
                    &&& le16(bytes@) + 4 <= bytes@.len()
                    &&& node.0@ == bytes@
                    &&& node.1 == 0
                    &&& node.2 == le16(bytes@) + 4
                    &&& node.wf()
                },
                None => bytes@.len() < 2 || le16(bytes@) + 4 > bytes@.len(),
            },
    {
        if bytes.len() < 2 {
            return None;
        }
        let bytes_node: usize = Self::read_bytes_of_value(bytes) + SIZE_NODE_TYPE * 2;
        if bytes_node > bytes.len() {
            None
        } else {
            Some(Self(bytes, 0, bytes_node))
        }
    }

    /// The node that ends `bytes`, if `bytes` is long enough for what its
    /// last length mark announces.
    pub fn from_end(bytes: &'a [u8]) -> (r: Option<Self>)
        ensures
            match r {
                Some(node) => {
                    &&& bytes@.len() >= 2
                    &&& node.0@ == bytes@
                    &&& node.2 == le16(bytes@.skip(bytes@.len() - 2)) + 4
                    &&& node.1 + node.2 == bytes@.len()
                    &&& node.wf()
                },
                None => bytes@.len() < 2 || le16(bytes@.skip(bytes@.len() - 2)) + 4
                    > bytes@.len(),
            },
    {
        let n: usize = bytes.len();
        if n < 2 {
            return None;
        }
        let mark = slice_subrange(bytes, n - SIZE_NODE_TYPE, n);
        assert(mark@ =~= bytes@.skip(n - 2));
        let bytes_node: usize = Self::read_bytes_of_value(mark) + SIZE_NODE_TYPE * 2;
        if bytes_node > n {
            None
        } else {
            Some(Self(bytes, n - bytes_node, bytes_node))
        }
    }

    /// The value of the node that starts at `offset` in `bytes`.
    pub fn read_value(bytes: &'a [u8], offset: usize) -> (r: &'a [u8])
        requires
            offset + 2 <= bytes@.len(),
            offset + 2 + le16(bytes@.skip(offset as int)) <= bytes@.len(),
        ensures
            r@ == bytes@.subrange(offset + 2, offset + 2 + le16(bytes@.skip(offset as int))),
    {
        let n: usize = bytes.len();
        let rest = slice_subrange(bytes, offset, n);
        assert(rest@ =~= bytes@.skip(offset as int));
        let offset_value: usize = offset + Self::read_bytes_of_value(rest) + SIZE_NODE_TYPE;
        slice_subrange(bytes, offset + SIZE_NODE_TYPE, offset_value)
    }

    /// The bytes that `value` takes in a buffer, both marks included.
    pub fn count_bytes(value: &[u8]) -> (r: usize)
        requires
            value@.len() + 4 <= usize::MAX,
        ensures
            r == value@.len() + 4,
            r == node_bytes(value@).len(),
    {
        value.len() + SIZE_NODE_TYPE * 2
    }

    /// The length that the mark at the start of `node` announces.
    pub fn read_bytes_of_value(node: &[u8]) -> (r: usize)
        requires
            node@.len() >= 2,
        ensures
            r == le16(node@),
    {
        let b0: usize = node[0] as usize;
        let b1: usize = node[1] as usize;
        b0 + b1 * 256
    }

    /// Appends `value`, enclosed in its two length marks, to `out`.
    pub fn write_value(value: &[u8], out: &mut Vec<u8>)
        requires
            value@.len() <= 0xFFFF,
        ensures
            final(out)@ == old(out)@ + node_bytes(value@),
    {
        let n: usize = value.len();
        let b0: u8 = (n % 256) as u8;
        let b1: u8 = (n / 256) as u8;
        out.push(b0);
        out.push(b1);
        let mut i: usize = 0;
        while i < n
            invariant
                i <= n,
                n == value@.len(),
                out@ == old(out)@ + seq![b0, b1] + value@.take(i as int),
            decreases n - i,
        {
            out.push(value[i]);
            assert(value@.take(i + 1) =~= value@.take(i as int).push(value@[i as int]));
            assert(out@ =~= old(out)@ + seq![b0, b1] + value@.take(i + 1));
            i += 1;
        }
        out.push(b0);
        out.push(b1);
        assert(value@.take(n as int) =~= value@);
        assert(le16_bytes(n as int) =~= seq![b0, b1]);
        assert(out@ =~= old(out)@ + node_bytes(value@));
    }

    /// The bytes that the node takes, both marks included.
    pub fn bytes_of_node(&self) -> (r: usize)
        ensures
            r == self.2,
    {
        self.2
    }

    /// The bytes of the value alone.
    pub fn bytes_of_value(&self) -> (r: usize)
        requires
            self.wf(),
        ensures
            r == self.2 - 4,
            r == self.spec_value().len(),
    {
        self.2 - SIZE_NODE_TYPE * 2
    }

    /// Where the node starts in its buffer.
    pub fn offset(&self) -> (r: usize)
        ensures
            r == self.1,
    {
        self.1
    }

    /// The value between the two marks.
    pub fn value(&self) -> (r: &'a [u8])
        requires
            self.wf(),
        ensures
            r@ == self.spec_value(),
    {
        let n: usize = self.0.len();
        assert(self.1 + self.2 <= n);
        slice_subrange(self.0, self.1 + SIZE_NODE_TYPE, self.1 + self.2 - SIZE_NODE_TYPE)
    }

    /// The node as it lies in the buffer, both marks included.
    pub fn as_ref(&self) -> (r: &'a [u8])
        requires
            self.wf(),
        ensures
            r@ == self.as_bytes(),
    {
        let n: usize = self.0.len();
        assert(self.1 + self.2 <= n);
        slice_subrange(self.0, self.1, self.1 + self.2)
    }
}

/// A bounded run of list values in one flat buffer: the count of the
/// values, then each value between two marks of its length.
pub struct ZipList(Vec<u8>);

impl View for ZipList {
    type V = Seq<Seq<u8>>;

    /// The values, first to last.
    open spec fn view(&self) -> Seq<Seq<u8>> {
        parse_list(self.bytes()).unwrap()
    }
}

impl ZipList {
    /// The buffer as the store holds it.
    pub closed spec fn bytes(&self) -> Seq<u8> {
        self.0@
    }

    /// The buffer is a well-formed packed list.
    pub open spec fn wf(&self) -> bool {
        parse_list(self.bytes()) is Some
    }

    /// The buffer of a well-formed list is the packing of its values.
    pub proof fn lemma_bytes(&self)
        requires
            self.wf(),
        ensures
            self.bytes() == list_bytes(self@),
            values_fit(self@),
            self.bytes().len() == offset_of(self@, self@.len() as int),
            self.bytes().len() >= 4,
    {
        lemma_list_bytes_parse(self.bytes());
        lemma_offset_ends(self@);
    }

    /// The empty list.
    pub fn new() -> (r: Self)
        ensures
            r.wf(),
            r@ == Seq::<Seq<u8>>::empty(),
    {
        let mut bytes: Vec<u8> = Vec::new();
        bytes.push(0);
        bytes.push(0);
        bytes.push(0);
        bytes.push(0);
        let r = ZipList(bytes);
        proof {
            let e = Seq::<Seq<u8>>::empty();
            lemma_body_empty();
            lemma_parse_list_bytes(e);
            assert(r.0@ =~= list_bytes(e));
        }
        r
    }

    /// The list that `bytes` holds, or `None` where they are no
    /// well-formed list. A buffer too short for the count is taken for
    /// the empty list.
    pub fn from(bytes: Vec<u8>) -> (r: Option<Self>)
        ensures
            bytes@.len() < 4 ==> r is Some && r.unwrap()@ == Seq::<Seq<u8>>::empty(),
            bytes@.len() >= 4 ==> (r is Some <==> parse_list(bytes@) is Some),
            bytes@.len() >= 4 && r is Some ==> r.unwrap().bytes() == bytes@,
            r is Some ==> r.unwrap().wf(),
    {
        let n: usize = bytes.len();
        if n < LEN_INIT {
            return Some(Self::new());
        }
        let ghost body = bytes@.skip(4);
        let ghost mut prefix: Seq<Seq<u8>> = Seq::empty();
        let mut off: usize = LEN_INIT;
        let mut count: usize = 0;
        assert(body.skip(0) =~= body);
        while off < n
            invariant
                4 <= off <= n,
                n == bytes@.len(),
                body == bytes@.skip(4),
                count == prefix.len(),
                count * 4 <= off - 4,
                parse_body(body) == (match parse_body(body.skip(off - 4)) {
                    Some(rest) => Some(prefix + rest),
                    None => None,
                }),
            decreases n - off,
        {
            let ghost c = body.skip(off - 4);
            proof {
                lemma_parse_step(c);
            }
            if n - off < 4 {
                return None;
            }
            let rest = slice_subrange(bytes.as_slice(), off, n);
            assert(rest@ =~= c);
            let len_value: usize = ZipListNode::read_bytes_of_value(rest);
            if len_value + 4 > n - off {
                return None;
            }
            let mark = slice_subrange(rest, len_value + 2, len_value + 4);
            if ZipListNode::read_bytes_of_value(mark) != len_value {
                return None;
            }
            proof {
                let v = c.subrange(2, len_value + 2);
                assert(c.skip(len_value + 4) =~= body.skip(off + len_value + 4 - 4));
                let tail = parse_body(c.skip(len_value + 4));
                if tail is Some {
                    assert(prefix + (seq![v] + tail.unwrap()) =~= prefix.push(v) + tail.unwrap());
                }
                prefix = prefix.push(v);
            }
            off = off + len_value + 4;
            count = count + 1;
        }
        proof {
            assert(body.skip(off - 4).len() == 0);
            lemma_parse_step(body.skip(off - 4));
            assert(prefix + Seq::<Seq<u8>>::empty() =~= prefix);
        }
        let head: u32 = crate::types::read_len_type(bytes.as_slice());
        if head as usize != count {
            return None;
        }
        Some(ZipList(bytes))
    }

    /// Reads the packed list under `key`: `None` where the store has no
    /// such key, an error where what it has there is no packed list.
    pub fn get<T: WrapDb>(tr: &T, key: &[u8]) -> (r: Result<Option<ZipList>, RrError>)
        requires
            tr.wf(),
        ensures
            match r {
                Ok(Some(zip)) => tr@.contains_key(key@) && zip.bytes() == tr@[key@] && zip.wf()
                    && tr@[key@].len() >= 4,
                Ok(None) => !tr@.contains_key(key@),
                Err(e) => if e is Message {
                    tr@.contains_key(key@) && (tr@[key@].len() < 4 || parse_list(tr@[key@]) is None)
                } else {
                    !tr.reliable()
                },
            },
    {
        match tr.get(key) {
            Err(e) => Err(e),
            Ok(None) => Ok(None),
            Ok(Some(v)) => {
                if v.len() < LEN_INIT {
                    return Err(RrError::data_error("the packed list is too short"));
                }
                match Self::from(v) {
                    Some(zip) => Ok(Some(zip)),
                    None => Err(RrError::data_error("the packed list is not well formed")),
                }
            },
        }
    }

    /// The buffer as the store takes it.
    pub fn as_ref(&self) -> (r: &[u8])
        ensures
            r@ == self.bytes(),
    {
        self.0.as_slice()
    }

    /// How many values the list holds.
    pub fn len(&self) -> (r: LenType)
        requires
            self.wf(),
        ensures
            r == self@.len(),
    {
        crate::types::read_len_type(self.0.as_slice())
    }

    /// Writes `len` as the count and leaves the values.
    fn set_len(&mut self, len: LenType)
        requires
            old(self).0@.len() >= 4,
        ensures
            final(self).0@ == le32_bytes(len as int) + old(self).0@.skip(4),
    {
        crate::types::write_len_type(self.0.as_mut_slice(), len)
    }

    /// Where value `index` starts in the buffer. For `index == 0` that is
    /// the end of the count, whether the list holds a value or not.
    pub fn get_offset_index(&self, index: usize) -> (r: Option<usize>)
        requires
            self.wf(),
        ensures
            index == 0 || index < self@.len() ==> r is Some && r.unwrap() == offset_of(
                self@,
                index as int,
            ) && r.unwrap() <= self.bytes().len(),
            !(index == 0 || index < self@.len()) ==> r is None,
    {
        proof {
            self.lemma_bytes();
            lemma_offset_ends(self@);
        }
        if index == 0 {
            Some(LEN_INIT)
        } else if index < self.len() as usize {
            let n: usize = self.0.len();
            let mut offset: usize = LEN_INIT;
            let mut k: usize = 0;
            while k < index
                invariant
                    k <= index < self@.len(),
                    self.wf(),
                    n == self.0@.len(),
                    self.0@ == list_bytes(self@),
                    values_fit(self@),
                    offset == offset_of(self@, k as int),
                decreases index - k,
            {
                proof {
                    lemma_node_at(self@, k as int);
                }
                let rest = slice_subrange(self.0.as_slice(), offset, offset + 2);
                let len_value: usize = ZipListNode::read_bytes_of_value(rest);
                offset = offset + len_value + SIZE_NODE_TYPE * 2;
                k += 1;
            }
            proof {
                lemma_node_at(self@, index as int);
            }
            Some(offset)
        } else {
            None
        }
    }

    /// Puts `value` into the buffer at `offset`, where value `i` starts,
    /// and counts it.
    fn insert_offset(&mut self, offset: usize, value: &[u8], Ghost(i): Ghost<int>)
        requires
            old(self).wf(),
            0 <= i <= old(self)@.len(),
            offset == offset_of(old(self)@, i),
            value@.len() <= 0xFFFF,
            old(self)@.len() < u32::MAX,
        ensures
            final(self).wf(),
            final(self)@ == old(self)@.insert(i, value@),
    {
        let ghost s = self@;
        let ghost t = s.insert(i, value@);
        proof {
            self.lemma_bytes();
            lemma_insert_bytes(s, i, value@);
        }
        let n: LenType = self.len();
        let mut tail = self.0.split_off(offset);
        ZipListNode::write_value(value, &mut self.0);
        self.0.append(&mut tail);
        self.set_len(n + 1);
        proof {
            assert(self.0@ =~= list_bytes(t));
            lemma_parse_list_bytes(t);
        }
    }

    /// Takes the values `i` to `j - 1` out of the buffer, which they fill
    /// from `start` to `end`, and lowers the count by `count`.
    fn remove_start_end(
        &mut self,
        start: usize,
        end: usize,
        count: LenType,
        Ghost(i): Ghost<int>,
        Ghost(j): Ghost<int>,
    )
        requires
            old(self).wf(),
            0 <= i <= j <= old(self)@.len(),
            start == offset_of(old(self)@, i),
            end == offset_of(old(self)@, j),
            count == j - i,
        ensures
            final(self).wf(),
            final(self)@ == old(self)@.take(i) + old(self)@.skip(j),
    {
        let ghost s = self@;
        let ghost t = s.take(i) + s.skip(j);
        proof {
            self.lemma_bytes();
            lemma_remove_bytes(s, i, j);
        }
        let n: LenType = self.len();
        let mut tail = self.0.split_off(end);
        self.0.truncate(start);
        self.0.append(&mut tail);
        self.set_len(n - count);
        proof {
            assert(self.0@ =~= list_bytes(t));
            lemma_parse_list_bytes(t);
        }
    }

    /// Puts `value` before value `index`, or at the end for
    /// `index == len()`. Nothing is done for an `index` beyond that.
    fn insert_index(&mut self, index: usize, value: &[u8]) -> (r: bool)
        requires
            old(self).wf(),
            value@.len() <= 0xFFFF,
            old(self)@.len() < u32::MAX,
        ensures
            final(self).wf(),
            r == (index <= old(self)@.len()),
            r ==> final(self)@ == old(self)@.insert(index as int, value@),
            !r ==> final(self)@ == old(self)@,
    {
        proof {
            self.lemma_bytes();
        }
        if index == self.len() as usize {
            let end: usize = self.0.len();
            self.insert_offset(end, value, Ghost(index as int));
            true
        } else {
            match self.get_offset_index(index) {
                Some(offset) => {
                    if index < self.len() as usize {
                        self.insert_offset(offset, value, Ghost(index as int));
                        true
                    } else {
                        false
                    }
                },
                None => false,
            }
        }
    }

    /// Takes the first value off the list and returns it, or `None` from
    /// the empty list.
    pub fn pop_left(&mut self) -> (r: Option<Vec<u8>>)
        requires
            old(self).wf(),
        ensures
            final(self).wf(),
            old(self)@.len() == 0 ==> r is None && final(self)@ == old(self)@,
            old(self)@.len() > 0 ==> r is Some && r.unwrap()@ == old(self)@[0] && final(self)@
                == old(self)@.drop_first(),
    {
        let len: LenType = self.len();
        if len < 1 {
            return None;
        }
        let ghost s = self@;
        proof {
            self.lemma_bytes();
            lemma_node_at(s, 0);
            lemma_offset_ends(s);
        }
        let n: usize = self.0.len();
        let body = slice_subrange(self.0.as_slice(), LEN_INIT, n);
        assert(body@.subrange(0, 2) =~= self.0@.subrange(4, 6));
        assert(le16(body@) == le16(body@.subrange(0, 2)));
        match ZipListNode::from_start(body) {
            None => None,
            Some(node) => {
                assert(node.spec_value() =~= s[0]);
                let pop_value: Vec<u8> = vstd::slice::slice_to_vec(node.value());
                let size_node: usize = node.bytes_of_node();
                self.remove_start_end(LEN_INIT, LEN_INIT + size_node, 1, Ghost(0), Ghost(1));
                assert(s.take(0) + s.skip(1) =~= s.drop_first());
                Some(pop_value)
            },
        }
    }

    /// Puts `value` in front of the list.
    pub fn push_left(&mut self, value: &[u8])
        requires
            old(self).wf(),
            value@.len() <= 0xFFFF,
            old(self)@.len() < u32::MAX,
        ensures
            final(self).wf(),
            final(self)@ == seq![value@] + old(self)@,
    {
        self.insert_index(0, value);
        assert(old(self)@.insert(0, value@) =~= seq![value@] + old(self)@);
    }

    /// Takes the last value off the list and returns it, or `None` from
    /// the empty list.
    pub fn pop_right(&mut self) -> (r: Option<Vec<u8>>)
        requires
            old(self).wf(),
        ensures
            final(self).wf(),
            old(self)@.len() == 0 ==> r is None && final(self)@ == old(self)@,
            old(self)@.len() > 0 ==> r is Some && r.unwrap()@ == old(self)@.last() && final(self)@
                == old(self)@.drop_last(),
    {
        let len: LenType = self.len();
        if len < 1 {
            return None;
        }
        let ghost s = self@;
        let ghost last = s.len() - 1;
        proof {
            self.lemma_bytes();
            lemma_node_at(s, last);
            lemma_offset_ends(s);
        }
        let n: usize = self.0.len();
        let body = slice_subrange(self.0.as_slice(), LEN_INIT, n);
        assert(body@.skip(body@.len() - 2) =~= self.0@.subrange(n - 2, n as int));
        match ZipListNode::from_end(body) {
            None => None,
            Some(right) => {
                assert(right.spec_value() =~= s[last]);
                let pop_value: Vec<u8> = vstd::slice::slice_to_vec(right.value());
                let offset: usize = n - right.bytes_of_node();
                self.remove_start_end(offset, n, 1, Ghost(last), Ghost(last + 1));
                assert(s.take(last) + s.skip(last + 1) =~= s.drop_last());
                Some(pop_value)
            },
        }
    }

    /// Puts `value` at the end of the list.
    pub fn push_right(&mut self, value: &[u8])
        requires
            old(self).wf(),
            value@.len() <= 0xFFFF,
            old(self)@.len() < u32::MAX,
        ensures
            final(self).wf(),
            final(self)@ == old(self)@.push(value@),
    {
        let len: usize = self.len() as usize;
        self.insert_index(len, value);
        assert(old(self)@.insert(len as int, value@) =~= old(self)@.push(value@));
    }

    /// Puts `value` before value `index`, or at the end for
    /// `index == len()`, and says whether it did: for any other `index`
    /// the list stays as it is.
    pub fn insert_left(&mut self, index: i32, value: &[u8]) -> (r: bool)
        requires
            old(self).wf(),
            value@.len() <= 0xFFFF,
            old(self)@.len() < u32::MAX,
        ensures
            final(self).wf(),
            r == (0 <= index <= old(self)@.len()),
            r ==> final(self)@ == old(self)@.insert(index as int, value@),
            !r ==> final(self)@ == old(self)@,
    {
        if index < 0 {
            false
        } else {
            self.insert_index(index as usize, value)
        }
    }

    /// Puts `value` behind value `index`, and says whether it did. Into
    /// the empty list the value goes whatever `index` is.
    pub fn insert_right(&mut self, index: i32, value: &[u8]) -> (r: bool)
        requires
            old(self).wf(),
            value@.len() <= 0xFFFF,
            old(self)@.len() < u32::MAX,
        ensures
            final(self).wf(),
            r == (old(self)@.len() == 0 || -1 <= index < old(self)@.len()),
            r ==> final(self)@ == old(self)@.insert(
                if old(self)@.len() == 0 {
                    0
                } else {
                    index + 1
                },
                value@,
            ),
            !r ==> final(self)@ == old(self)@,
    {
        if self.len() == 0 {
            self.insert_index(0, value)
        } else if index < -1 {
            false
        } else {
            let left_index: usize = (index as i64 + 1) as usize;
            self.insert_index(left_index, value)
        }
    }

    /// Puts `value` in the place of value `index` and returns the value
    /// that was there, or `None`, with nothing done, where the list has no
    /// value `index`.
    pub fn set(&mut self, index: i32, value: &[u8]) -> (r: Option<Vec<u8>>)
        requires
            old(self).wf(),
            value@.len() <= 0xFFFF,
        ensures
            final(self).wf(),
            0 <= index < old(self)@.len() ==> r is Some && r.unwrap()@ == old(self)@[index as int]
                && final(self)@ == old(self)@.update(index as int, value@),
            !(0 <= index < old(self)@.len()) ==> r is None && final(self)@ == old(self)@,
    {
        if index < 0 || index as u32 >= self.len() {
            return None;
        }
        let ghost s = self@;
        let ghost i = index as int;
        proof {
            self.lemma_bytes();
            lemma_node_at(s, i);
        }
        match self.get_offset_index(index as usize) {
            None => None,
            Some(offset) => {
                let n: usize = self.0.len();
                let rest = slice_subrange(self.0.as_slice(), offset, n);
                assert(rest@.subrange(0, 2) =~= self.0@.subrange(offset as int, offset + 2));
                assert(le16(rest@) == le16(rest@.subrange(0, 2)));
                match ZipListNode::from_start(rest) {
                    None => None,
                    Some(node) => {
                        assert(node.spec_value() =~= s[i]);
                        let old_value: Vec<u8> = vstd::slice::slice_to_vec(node.value());
                        let old_bytes_node: usize = node.bytes_of_node();
                        self.remove_start_end(
                            offset,
                            offset + old_bytes_node,
                            1,
                            Ghost(i),
                            Ghost(i + 1),
                        );
                        let ghost mid = self@;
                        proof {
                            assert(mid.take(i) =~= s.take(i));
                        }
                        self.insert_offset(offset, value, Ghost(i));
                        assert(mid.insert(i, value@) =~= s.update(i, value@));
                        Some(old_value)
                    },
                }
            },
        }
    }

    /// Empties the list.
    pub fn clear(&mut self)
        ensures
            final(self).wf(),
            final(self)@ == Seq::<Seq<u8>>::empty(),
    {
        let e = Self::new();
        self.0 = e.0;
    }

    /// Value `index`, or `None` where the list has none.
    pub fn index(&self, index: i32) -> (r: Option<&[u8]>)
        requires
            self.wf(),
        ensures
            0 <= index < self@.len() ==> r is Some && r.unwrap()@ == self@[index as int],
            !(0 <= index < self@.len()) ==> r is None,
    {
        if index < 0 || index as u32 >= self.len() {
            return None;
        }
        proof {
            self.lemma_bytes();
            lemma_node_at(self@, index as int);
        }
        match self.get_offset_index(index as usize) {
            None => None,
            Some(offset) => {
                assert(self.0@.skip(offset as int).subrange(0, 2) =~= self.0@.subrange(
                    offset as int,
                    offset + 2,
                ));
                assert(le16(self.0@.skip(offset as int)) == le16(
                    self.0@.skip(offset as int).subrange(0, 2),
                ));
                let node = ZipListNode::read_value(self.0.as_slice(), offset);
                assert(node@ =~= self@[index as int]);
                Some(node)
            },
        }
    }

    /// Walks the list to the first value that is `pivot`. Returns whether
    /// there is one, its place, and the cursor, which then stands behind
    /// it.
    fn find_value<'a>(&'a self, pivot: &[u8]) -> (r: (bool, usize, ZipListIter<'a>))
        requires
            self.wf(),
        ensures
            r.2.wf(),
            r.2.elems@ == self@,
            r.0 ==> first_at(self@, pivot@, r.1 as int) && r.2.pos@ == r.1 + 1,
            !r.0 ==> forall|j: int| 0 <= j < self@.len() ==> self@[j] != pivot@,
    {
        let ghost s = self@;
        let mut index: usize = 0;
        let mut it = ZipListIter::new(self);
        let mut found: bool = false;
        let mut done: bool = false;
        while !done
            invariant
                it.wf(),
                it.elems@ == s,
                0 <= index <= s.len(),
                s.len() <= u32::MAX,
                forall|j: int| 0 <= j < index ==> s[j] != pivot@,
                !found ==> it.pos@ == index,
                found ==> done && first_at(s, pivot@, index as int) && it.pos@ == index + 1,
                done && !found ==> index == s.len(),
            decreases s.len() - it.pos@ + (if done { 0int } else { 1int }),
        {
            match it.next() {
                None => {
                    done = true;
                },
                Some(node) => {
                    if bytes_eq(pivot, node.value()) {
                        found = true;
                        done = true;
                    } else {
                        index += 1;
                    }
                },
            }
        }
        (found, index, it)
    }

    /// Puts `value` before the first value that is `pivot` and returns
    /// the place that `value` then has. Where no value is `pivot`, the
    /// list stays as it is and the answer is `None`.
    pub fn insert_value_left(&mut self, pivot: &[u8], value: &[u8]) -> (r: Option<i32>)
        requires
            old(self).wf(),
            value@.len() <= 0xFFFF,
            old(self)@.len() < i32::MAX,
        ensures
            final(self).wf(),
            match r {
                Some(i) => first_at(old(self)@, pivot@, i as int) && final(self)@ == old(
                    self,
                )@.insert(i as int, value@) && final(self)@[i as int] == value@,
                None => (forall|j: int| 0 <= j < old(self)@.len() ==> old(self)@[j] != pivot@)
                    && final(self)@ == old(self)@,
            },
    {
        let (found, index, mut it) = self.find_value(pivot);
        if !found {
            return None;
        }
        it.prev();
        let offset: usize = it.offset();
        self.insert_offset(offset, value, Ghost(index as int));
        Some(index as i32)
    }

    /// Puts `value` behind the first value that is `pivot` and returns
    /// the place that `value` then has, which is the place behind that
    /// of the pivot. Where no value is `pivot`, the list stays as it is
    /// and the answer is `None`.
    pub fn insert_value_right(&mut self, pivot: &[u8], value: &[u8]) -> (r: Option<i32>)
        requires
            old(self).wf(),
            value@.len() <= 0xFFFF,
            old(self)@.len() < i32::MAX,
        ensures
            final(self).wf(),
            match r {
                Some(p) => first_at(old(self)@, pivot@, p - 1) && final(self)@ == old(
                    self,
                )@.insert(p as int, value@) && final(self)@[p as int] == value@,
                None => (forall|j: int| 0 <= j < old(self)@.len() ==> old(self)@[j] != pivot@)
                    && final(self)@ == old(self)@,
            },
    {
        let (found, index, it) = self.find_value(pivot);
        if !found {
            return None;
        }
        let offset: usize = it.offset();
        self.insert_offset(offset, value, Ghost(index + 1));
        Some((index + 1) as i32)
    }

    /// The place of the first value that is `pivot`, or `None` where no
    /// value is.
    pub fn find(&self, pivot: &[u8]) -> (r: Option<usize>)
        requires
            self.wf(),
        ensures
            match r {
                Some(i) => first_at(self@, pivot@, i as int),
                None => forall|j: int| 0 <= j < self@.len() ==> self@[j] != pivot@,
            },
    {
        let (found, index, it) = self.find_value(pivot);
        if found {
            Some(index)
        } else {
            None
        }
    }

    /// How many values of the list are `value`.
    fn count_value(&self, value: &[u8]) -> (r: LenType)
        requires
            self.wf(),
        ensures
            r == count_of(self@, value@),
    {
        let ghost s = self@;
        let mut seen: LenType = 0;
        let mut it = ZipListIter::new(self);
        let mut done: bool = false;
        assert(s.take(0) =~= Seq::<Seq<u8>>::empty());
        while !done
            invariant
                it.wf(),
                it.elems@ == s,
                s.len() <= u32::MAX,
                seen == count_of(s.take(it.pos@), value@),
                seen <= it.pos@,
                done ==> it.pos@ == s.len(),
            decreases s.len() - it.pos@ + (if done { 0int } else { 1int }),
        {
            let ghost k = it.pos@;
            match it.next() {
                None => {
                    done = true;
                },
                Some(node) => {
                    proof {
                        lemma_count_split(s, value@, k);
                    }
                    if bytes_eq(value, node.value()) {
                        seen += 1;
                    }
                },
            }
        }
        assert(s.take(s.len() as int) =~= s);
        seen
    }

    /// Removes values that are `value` and returns how many it removed:
    /// for a positive `count` the first `count` of them, for a negative
    /// one the last `-count`, for 0 all. The values that stay keep their
    /// order.
    pub fn rem(&mut self, count: i32, value: &[u8]) -> (r: LenType)
        requires
            old(self).wf(),
        ensures
            final(self).wf(),
            final(self)@ == rem_values(old(self)@, value@, count as int),
            r == old(self)@.len() - final(self)@.len(),
    {
        let ghost s = self@;
        let ghost v = value@;
        let ghost c = count as int;
        proof {
            self.lemma_bytes();
        }
        let n: LenType = self.len();
        let total: LenType = if count < 0 {
            self.count_value(value)
        } else {
            0
        };
        let limit: i64 = if count < 0 {
            -(count as i64)
        } else {
            count as i64
        };
        let mut out: Vec<u8> = Vec::new();
        out.push(0);
        out.push(0);
        out.push(0);
        out.push(0);
        let ghost zeros = out@;
        let mut seen: LenType = 0;
        let mut removed: LenType = 0;
        let mut it = ZipListIter::new(self);
        let mut done: bool = false;
        proof {
            assert(s.take(0) =~= Seq::<Seq<u8>>::empty());
            lemma_body_empty();
            assert(out@ =~= zeros + body_bytes(rem_kept(s, v, c, 0)));
        }
        while !done
            invariant
                it.wf(),
                it.elems@ == s,
                values_fit(s),
                v == value@,
                c == count as int,
                n == s.len(),
                zeros.len() == 4,
                count < 0 ==> total == count_of(s, v),
                limit == (if count < 0 { -(count as int) } else { count as int }),
                seen == count_of(s.take(it.pos@), v),
                seen <= it.pos@,
                removed == it.pos@ - rem_kept(s, v, c, it.pos@).len(),
                rem_kept(s, v, c, it.pos@).len() <= it.pos@,
                out@ == zeros + body_bytes(rem_kept(s, v, c, it.pos@)),
                done ==> it.pos@ == s.len(),
            decreases s.len() - it.pos@ + (if done { 0int } else { 1int }),
        {
            let ghost k = it.pos@;
            match it.next() {
                None => {
                    done = true;
                },
                Some(node) => {
                    proof {
                        lemma_count_split(s, v, k);
                        lemma_rem_kept_fit(s, v, c, k);
                        lemma_rem_kept_fit(s, v, c, k + 1);
                    }
                    let same: bool = bytes_eq(value, node.value());
                    let hit: bool = same && (count == 0 || (count > 0 && (seen as i64) < limit) || (
                    count < 0 && (total as i64) - (seen as i64) - 1 < limit));
                    assert(hit == rem_hits(s, v, c, k));
                    if same {
                        seen += 1;
                    }
                    if hit {
                        removed += 1;
                    } else {
                        ZipListNode::write_value(node.value(), &mut out);
                        proof {
                            let kept = rem_kept(s, v, c, k);
                            lemma_body_concat(kept, seq![s[k]]);
                            lemma_body_single(s[k]);
                            assert(kept + seq![s[k]] =~= kept.push(s[k]));
                            assert(out@ =~= zeros + body_bytes(rem_kept(s, v, c, k + 1)));
                        }
                    }
                },
            }
        }
        let ghost t = rem_values(s, v, c);
        proof {
            lemma_rem_kept_fit(s, v, c, s.len() as int);
        }
        crate::types::write_len_type(out.as_mut_slice(), n - removed);
        self.0 = out;
        proof {
            assert(self.0@ =~= list_bytes(t));
            lemma_parse_list_bytes(t);
        }
        removed
    }

    /// The values whose places lie between `start` and `stop`, both
    /// included, in their order; none where the list has no such place.
    pub fn range(&self, start: i32, stop: i32) -> (r: Vec<Vec<u8>>)
        requires
            self.wf(),
        ensures
            views(r@) == range_values(self@, start as int, stop as int),
    {
        let ghost s = self@;
        let mut result: Vec<Vec<u8>> = Vec::new();
        let mut index: LenType = 0;
        let mut it = ZipListIter::new(self);
        let mut done: bool = false;
        assert(views(result@) =~= range_values(s.take(0), start as int, stop as int));
        while !done
            invariant
                it.wf(),
                it.elems@ == s,
                s.len() <= u32::MAX,
                index == it.pos@,
                views(result@) == range_values(s.take(index as int), start as int, stop as int),
                done ==> it.pos@ == s.len(),
            decreases s.len() - it.pos@ + (if done { 0int } else { 1int }),
        {
            match it.next() {
                None => {
                    done = true;
                },
                Some(node) => {
                    let ghost before = result@;
                    if index as i64 >= start as i64 && index as i64 <= stop as i64 {
                        result.push(vstd::slice::slice_to_vec(node.value()));
                        assert(views(result@) =~= views(before).push(s[index as int]));
                    }
                    assert(views(result@) =~= range_values(
                        s.take(index + 1),
                        start as int,
                        stop as int,
                    ));
                    index += 1;
                },
            }
        }
        assert(s.take(s.len() as int) =~= s);
        result
    }

    /// The place in a list of `len` values that `index` stands for: a
    /// negative `index` counts from the end, and what lies beyond either
    /// end is taken for the nearest place.
    pub fn count_index(len: i32, index: i32) -> (r: i32)
        requires
            len >= 0,
        ensures
            r == place_of(len as int, index as int),
    {
        if index < 0 {
            let index_ = len + index;
            if index_ < 0 {
                0
            } else {
                index_
            }
        } else if index >= len {
            len - 1
        } else {
            index
        }
    }

    /// The part of the places `start_index` to `stop_index`, both
    /// included, that falls into a run of `len` values whose first has
    /// place `offset`: the first and the last of them, counted from the
    /// start of the run, or `None` where none falls into it.
    pub fn count_in_index(len: LenType, offset: usize, start_index: usize, stop_index: usize) -> (r:
        Option<(usize, usize)>)
        ensures
            r is Some <==> start_index <= stop_index && start_index < offset + len && stop_index
                >= offset && len > 0,
            r is Some ==> r.unwrap().0 == (if start_index > offset {
                start_index - offset
            } else {
                0
            }) && r.unwrap().1 == (if stop_index - offset < len - 1 {
                stop_index - offset
            } else {
                len - 1
            }),
    {
        let len: usize = len as usize;
        if len == 0 || start_index > stop_index || stop_index < offset || (start_index >= offset
            && start_index - offset >= len) {
            return None;
        }
        let start_in_index: usize = if start_index > offset {
            start_index - offset
        } else {
            0
        };
        let stop_in_index: usize = if stop_index - offset < len - 1 {
            stop_index - offset
        } else {
            len - 1
        };
        Some((start_in_index, stop_in_index))
    }
}

/// A cursor that walks the values of a list in either direction. It
/// stands between two values, before the first or behind the last.
pub struct ZipListIter<'a> {
    /// The buffer of the list without its count.
    pub zip_list: &'a [u8],
    /// The count of the list.
    pub len: LenType,
    /// Where in `zip_list` the cursor stands.
    pub start_cur: usize,
    /// Where it stood before the last step.
    pub pre: Option<usize>,
    /// The values of the list.
    pub elems: Ghost<Seq<Seq<u8>>>,
    /// How many values lie before the cursor.
    pub pos: Ghost<int>,
}

impl<'a> ZipListIter<'a> {
    /// The cursor stands on a value boundary of a well-formed list.
    pub open spec fn wf(&self) -> bool {
        &&& values_fit(self.elems@)
        &&& self.zip_list@ == list_bytes(self.elems@).skip(4)
        &&& self.zip_list@.len() + 4 <= usize::MAX
        &&& self.len == self.elems@.len()
        &&& 0 <= self.pos@ <= self.elems@.len()
        &&& self.start_cur + 4 == offset_of(self.elems@, self.pos@)
    }

    /// A cursor before the first value of `zip`.
    pub fn new(zip: &'a ZipList) -> (r: Self)
        requires
            zip.wf(),
        ensures
            r.wf(),
            r.elems@ == zip@,
            r.pos@ == 0,
            r.pre is None,
    {
        proof {
            zip.lemma_bytes();
            lemma_offset_ends(zip@);
        }
        let n: usize = zip.0.len();
        let body = slice_subrange(zip.0.as_slice(), LEN_INIT, n);
        assert(body@ =~= zip.0@.skip(4));
        ZipListIter {
            zip_list: body,
            len: zip.len(),
            start_cur: 0,
            pre: None,
            elems: Ghost(zip@),
            pos: Ghost(0),
        }
    }

    /// Where the cursor stands in the buffer of the list, the count
    /// included.
    pub fn offset(&self) -> (r: usize)
        requires
            self.wf(),
        ensures
            r == offset_of(self.elems@, self.pos@),
    {
        proof {
            lemma_body_split(self.elems@, self.pos@);
            assert(list_bytes(self.elems@).len() == 4 + body_bytes(self.elems@).len());
        }
        self.start_cur + LEN_INIT
    }

    /// Where the value before the cursor starts, or `None` before the
    /// first value.
    pub fn prev_offset(&self) -> (r: Option<usize>)
        requires
            self.wf(),
        ensures
            self.pos@ > 0 ==> r is Some && r.unwrap() == offset_of(self.elems@, self.pos@ - 1),
            self.pos@ == 0 ==> r is None,
    {
        proof {
            lemma_offset_ends(self.elems@);
            if self.pos@ > 0 {
                lemma_node_at(self.elems@, self.pos@ - 1);
            }
        }
        if self.start_cur >= SIZE_NODE_TYPE * 2 {
            let mark = slice_subrange(self.zip_list, self.start_cur - SIZE_NODE_TYPE, self.start_cur);
            assert(mark@ =~= list_bytes(self.elems@).subrange(
                offset_of(self.elems@, self.pos@) - 2,
                offset_of(self.elems@, self.pos@),
            ));
            let len_value: usize = ZipListNode::read_bytes_of_value(mark);
            let cur: usize = self.start_cur - (len_value + SIZE_NODE_TYPE * 2);
            Some(cur + LEN_INIT)
        } else {
            None
        }
    }

    /// Where the value behind the cursor ends, or `None` behind the last
    /// value.
    pub fn next_offset(&self) -> (r: Option<usize>)
        requires
            self.wf(),
        ensures
            self.pos@ < self.elems@.len() ==> r is Some && r.unwrap() == offset_of(
                self.elems@,
                self.pos@ + 1,
            ),
            self.pos@ == self.elems@.len() ==> r is None,
    {
        proof {
            lemma_offset_ends(self.elems@);
            if self.pos@ < self.elems@.len() {
                lemma_node_at(self.elems@, self.pos@);
            }
        }
        if self.start_cur < self.zip_list.len() {
            let mark = slice_subrange(self.zip_list, self.start_cur, self.start_cur + SIZE_NODE_TYPE);
            assert(mark@ =~= list_bytes(self.elems@).subrange(
                offset_of(self.elems@, self.pos@),
                offset_of(self.elems@, self.pos@) + 2,
            ));
            let len_value: usize = ZipListNode::read_bytes_of_value(mark);
            let cur: usize = self.start_cur + len_value + SIZE_NODE_TYPE * 2;
            Some(cur + LEN_INIT)
        } else {
            None
        }
    }

    /// Steps back over the value before the cursor and returns it, or
    /// `None`, without a step, before the first value.
    pub fn prev(&mut self) -> (r: Option<ZipListNode<'a>>)
        requires
            old(self).wf(),
        ensures
            final(self).wf(),
            final(self).elems@ == old(self).elems@,
            old(self).pos@ > 0 ==> r is Some && r.unwrap().wf() && r.unwrap().spec_value() == old(
                self,
            ).elems@[old(self).pos@ - 1] && final(self).pos@ == old(self).pos@ - 1,
            old(self).pos@ > 0 ==> final(self).pre == Some(old(self).start_cur),
            old(self).pos@ == 0 ==> r is None && final(self).pos@ == 0,
            old(self).pos@ == 0 ==> final(self).pre == old(self).pre,
    {
        let ghost s = self.elems@;
        let ghost p = self.pos@;
        proof {
            lemma_offset_ends(s);
            if p > 0 {
                lemma_node_at(s, p - 1);
            }
        }
        if self.start_cur >= SIZE_NODE_TYPE * 2 {
            let mark = slice_subrange(self.zip_list, self.start_cur - SIZE_NODE_TYPE, self.start_cur);
            assert(mark@ =~= list_bytes(s).subrange(offset_of(s, p) - 2, offset_of(s, p)));
            let len_value: usize = ZipListNode::read_bytes_of_value(mark);
            let cur: usize = self.start_cur;
            self.start_cur = cur - (len_value + SIZE_NODE_TYPE * 2);
            self.pre = Some(cur);
            self.pos = Ghost(p - 1);
            let node_bytes = slice_subrange(self.zip_list, self.start_cur, cur);
            assert(node_bytes@ =~= list_bytes(s).subrange(offset_of(s, p - 1), offset_of(s, p)));
            assert(node_bytes@.subrange(0, 2) =~= list_bytes(s).subrange(
                offset_of(s, p - 1),
                offset_of(s, p - 1) + 2,
            ));
            assert(le16(node_bytes@) == le16(node_bytes@.subrange(0, 2)));
            let r = ZipListNode::from_start(node_bytes);
            assert(r is Some);
            assert(r.unwrap().spec_value() =~= s[p - 1]);
            r
        } else {
            None
        }
    }

    /// Steps back over the value before the cursor and returns it, or
    /// `None`, without a step, before the first value.
    pub fn next_back(&mut self) -> (r: Option<ZipListNode<'a>>)
        requires
            old(self).wf(),
        ensures
            final(self).wf(),
            final(self).elems@ == old(self).elems@,
            old(self).pos@ > 0 ==> r is Some && r.unwrap().wf() && r.unwrap().spec_value() == old(
                self,
            ).elems@[old(self).pos@ - 1] && final(self).pos@ == old(self).pos@ - 1,
            old(self).pos@ > 0 ==> final(self).pre == Some(old(self).start_cur),
            old(self).pos@ == 0 ==> r is None && final(self).pos@ == 0,
            old(self).pos@ == 0 ==> final(self).pre == old(self).pre,
    {
        self.prev()
    }

    /// Steps over the value behind the cursor and returns it, or `None`,
    /// without a step, behind the last value.
    pub fn next(&mut self) -> (r: Option<ZipListNode<'a>>)
        requires
            old(self).wf(),
        ensures
            final(self).wf(),
            final(self).elems@ == old(self).elems@,
            old(self).pos@ < old(self).elems@.len() ==> r is Some && r.unwrap().wf()
                && r.unwrap().spec_value() == old(self).elems@[old(self).pos@] && final(self).pos@
                == old(self).pos@ + 1 && r.unwrap().as_bytes() == node_bytes(
                old(self).elems@[old(self).pos@],
            ),
            old(self).pos@ < old(self).elems@.len() ==> final(self).pre == Some(
                old(self).start_cur,
            ),
            old(self).pos@ == old(self).elems@.len() ==> r is None && final(self).pos@ == old(
                self,
            ).pos@,
            old(self).pos@ == old(self).elems@.len() ==> final(self).pre == old(self).pre,
    {
        let ghost s = self.elems@;
        let ghost p = self.pos@;
        proof {
            lemma_offset_ends(s);
            if p < s.len() {
                lemma_node_at(s, p);
            }
        }
        if self.start_cur < self.zip_list.len() {
            let mark = slice_subrange(self.zip_list, self.start_cur, self.start_cur + SIZE_NODE_TYPE);
            assert(mark@ =~= list_bytes(s).subrange(offset_of(s, p), offset_of(s, p) + 2));
            let len_value: usize = ZipListNode::read_bytes_of_value(mark);
            let cur: usize = self.start_cur;
            self.start_cur = cur + len_value + SIZE_NODE_TYPE * 2;
            self.pre = Some(cur);
            self.pos = Ghost(p + 1);
            let node_bytes = slice_subrange(self.zip_list, cur, self.start_cur);
            assert(node_bytes@ =~= list_bytes(s).subrange(offset_of(s, p), offset_of(s, p + 1)));
            assert(node_bytes@.subrange(0, 2) =~= mark@);
            assert(le16(node_bytes@) == le16(node_bytes@.subrange(0, 2)));
            let r = ZipListNode::from_start(node_bytes);
            assert(r is Some);
            assert(r.unwrap().spec_value() =~= s[p]);
            assert(r.unwrap().as_bytes() =~= node_bytes@);
            r
        } else {
            None
        }
    }
}

} // verus!
