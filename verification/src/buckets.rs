//! Mathematical model of a bucket store: a sequence of buckets, each an
//! ordered chain of `(key, value)` entries.

use vstd::prelude::*;

use crate::hash_key::HashKey;

verus! {

/// Position `(i, j)` names entry `j` of bucket `i`.
pub open spec fn valid_pos<K, V>(bs: Seq<Seq<(K, V)>>, i: int, j: int) -> bool {
    0 <= i < bs.len() && 0 <= j < bs[i].len()
}

/// The bucket that a key with abstract value `m` belongs to, in a store of
/// `n` buckets.
pub open spec fn slot_of<K: HashKey>(m: K::V, n: int) -> int {
    K::digest_spec(m) as int % n
}

/// Some entry with key `m` exists in the store.
pub open spec fn has_key<K: HashKey, V>(bs: Seq<Seq<(K, V)>>, m: K::V) -> bool {
    exists|i: int, j: int| #![trigger bs[i][j]] valid_pos(bs, i, j) && bs[i][j].0@ == m
}

/// The value of the entry with key `m`; meaningful when `has_key(bs, m)`
/// holds and keys are distinct.
pub open spec fn value_of<K: HashKey, V>(bs: Seq<Seq<(K, V)>>, m: K::V) -> V {
    let (i, j) = choose|i: int, j: int|
        #![trigger bs[i][j]]
        valid_pos(bs, i, j) && bs[i][j].0@ == m;
    bs[i][j].1
}

/// No two entries share an abstract key value.
pub open spec fn distinct_keys<K: HashKey, V>(bs: Seq<Seq<(K, V)>>) -> bool {
    forall|i1: int, j1: int, i2: int, j2: int|
        #![trigger bs[i1][j1], bs[i2][j2]]
        valid_pos(bs, i1, j1) && valid_pos(bs, i2, j2) && bs[i1][j1].0@ == bs[i2][j2].0@
            ==> i1 == i2 && j1 == j2
}

/// Every entry sits in the bucket that its key's digest selects, for a
/// store of `n` buckets.
pub open spec fn placed_for<K: HashKey, V>(bs: Seq<Seq<(K, V)>>, n: int) -> bool {
    forall|i: int, j: int|
        #![trigger bs[i][j]]
        valid_pos(bs, i, j) ==> slot_of::<K>(bs[i][j].0@, n) == i
}

/// Every entry sits in the bucket that its key's digest selects.
pub open spec fn placed<K: HashKey, V>(bs: Seq<Seq<(K, V)>>) -> bool {
    placed_for(bs, bs.len() as int)
}

/// The sequence of chains held by a vector of bucket vectors.
pub open spec fn store_of<K, V>(buckets: Seq<Vec<(K, V)>>) -> Seq<Seq<(K, V)>> {
    buckets.map_values(|b: Vec<(K, V)>| b@)
}

/// Every entry of `to` is an entry of `from`, drawn from a position before
/// `(i, k)` in bucket-then-chain order.
pub open spec fn moved_from<K, V>(
    to: Seq<Seq<(K, V)>>,
    from: Seq<Seq<(K, V)>>,
    i: int,
    k: int,
) -> bool {
    forall|a: int, b: int|
        #![trigger to[a][b]]
        valid_pos(to, a, b) ==> exists|x: int, y: int|
            #![trigger from[x][y]]
            valid_pos(from, x, y) && from[x][y] == to[a][b] && (x < i || (x == i && y < k))
}

/// Every entry of `from` before position `(i, k)` occurs in `to`.
pub open spec fn covers<K, V>(
    to: Seq<Seq<(K, V)>>,
    from: Seq<Seq<(K, V)>>,
    i: int,
    k: int,
) -> bool {
    forall|x: int, y: int|
        #![trigger from[x][y]]
        valid_pos(from, x, y) && (x < i || (x == i && y < k)) ==> exists|a: int, b: int|
            #![trigger to[a][b]]
            valid_pos(to, a, b) && to[a][b] == from[x][y]
}

/// Number of entries in buckets `i` and onward.
pub open spec fn count_from<K, V>(bs: Seq<Seq<(K, V)>>, i: int) -> int
    decreases bs.len() - i,
{
    if i < 0 || i >= bs.len() {
        0
    } else {
        bs[i].len() + count_from(bs, i + 1)
    }
}

/// Total number of entries in the store.
pub open spec fn count<K, V>(bs: Seq<Seq<(K, V)>>) -> int {
    count_from(bs, 0)
}

/// The entries from position `(i, j)` onward, in bucket-then-chain order.
pub open spec fn tail_from<K, V>(bs: Seq<Seq<(K, V)>>, i: int, j: int) -> Seq<(K, V)>
    decreases bs.len() - i,
{
    if i < 0 || i >= bs.len() {
        Seq::empty()
    } else {
        bs[i].skip(j) + tail_from(bs, i + 1, 0)
    }
}

/// All entries of the store, in bucket-then-chain order.
pub open spec fn entries<K, V>(bs: Seq<Seq<(K, V)>>) -> Seq<(K, V)> {
    tail_from(bs, 0, 0)
}

/// Instantiates [`covers`] at one source position.
pub proof fn lemma_covers_at<K, V>(
    to: Seq<Seq<(K, V)>>,
    from: Seq<Seq<(K, V)>>,
    i: int,
    k: int,
    x: int,
    y: int,
)
    requires
        covers(to, from, i, k),
        valid_pos(from, x, y),
        x < i || (x == i && y < k),
    ensures
        exists|a: int, b: int|
            #![trigger to[a][b]]
            valid_pos(to, a, b) && to[a][b] == from[x][y],
{
    let e = from[x][y];
    assert(valid_pos(from, x, y) && (x < i || (x == i && y < k)) && from[x][y] == e);
}

/// When keys are distinct, the entry at a valid position is the one and only
/// witness for its key, so `value_of` returns its value.
pub proof fn lemma_entry_value<K: HashKey, V>(bs: Seq<Seq<(K, V)>>, i: int, j: int)
    requires
        distinct_keys(bs),
        valid_pos(bs, i, j),
    ensures
        has_key(bs, bs[i][j].0@),
        value_of(bs, bs[i][j].0@) == bs[i][j].1,
{
    let m = bs[i][j].0@;
    assert(valid_pos(bs, i, j) && bs[i][j].0@ == m);
    let (a, b) = choose|a: int, b: int| #![trigger bs[a][b]] valid_pos(bs, a, b) && bs[a][b].0@ == m;
    assert(a == i && b == j);
}

/// Replacing bucket `i` changes the total entry count by the difference of
/// the two bucket lengths.
pub proof fn lemma_count_update<K, V>(bs: Seq<Seq<(K, V)>>, i: int, b: Seq<(K, V)>)
    requires
        0 <= i < bs.len(),
    ensures
        count(bs.update(i, b)) == count(bs) + b.len() - bs[i].len(),
{
    lemma_count_from_update(bs, i, b, 0);
}

/// As [`lemma_count_update`], but for the count from bucket `k` onward.
pub proof fn lemma_count_from_update<K, V>(bs: Seq<Seq<(K, V)>>, i: int, b: Seq<(K, V)>, k: int)
    requires
        0 <= i < bs.len(),
        0 <= k,
    ensures
        count_from(bs.update(i, b), k) == count_from(bs, k) + if k <= i {
            b.len() - bs[i].len()
        } else {
            0int
        },
    decreases bs.len() - k,
{
    if k < bs.len() {
        lemma_count_from_update(bs, i, b, k + 1);
    }
}

/// A store whose buckets are all empty holds no entries.
pub proof fn lemma_count_all_empty<K, V>(bs: Seq<Seq<(K, V)>>)
    requires
        forall|i: int| 0 <= i < bs.len() ==> bs[i].len() == 0,
    ensures
        count(bs) == 0,
{
    lemma_count_from_all_empty(bs, 0);
}

proof fn lemma_count_from_all_empty<K, V>(bs: Seq<Seq<(K, V)>>, k: int)
    requires
        forall|i: int| 0 <= i < bs.len() ==> bs[i].len() == 0,
        0 <= k,
    ensures
        count_from(bs, k) == 0,
    decreases bs.len() - k,
{
    if k < bs.len() {
        lemma_count_from_all_empty(bs, k + 1);
    }
}

/// Length of the entry sequence from `(i, j)` onward.
pub proof fn lemma_tail_from_len<K, V>(bs: Seq<Seq<(K, V)>>, i: int, j: int)
    requires
        0 <= i,
        i < bs.len() ==> 0 <= j <= bs[i].len(),
        i >= bs.len() ==> j == 0,
    ensures
        tail_from(bs, i, j).len() == count_from(bs, i) - j,
    decreases bs.len() - i,
{
    if i < bs.len() {
        lemma_tail_from_len(bs, i + 1, 0);
    }
}

/// A key occurs in the entry sequence from bucket `i` onward exactly when
/// some bucket at or past `i` holds an entry with that key.
pub proof fn lemma_tail_from_membership<K: HashKey, V>(bs: Seq<Seq<(K, V)>>, i: int, m: K::V)
    requires
        0 <= i,
    ensures
        (exists|t: int|
            0 <= t < tail_from(bs, i, 0).len() && tail_from(bs, i, 0)[t].0@ == m) <==> (exists|
            a: int,
            b: int,
        |
            #![trigger bs[a][b]]
            i <= a < bs.len() && 0 <= b < bs[a].len() && bs[a][b].0@ == m),
    decreases bs.len() - i,
{
    if i >= bs.len() {
    } else {
        lemma_tail_from_membership(bs, i + 1, m);
        let here = bs[i];
        let rest = tail_from(bs, i + 1, 0);
        assert(here.skip(0) =~= here);
        assert(tail_from(bs, i, 0) == here + rest);
        if exists|t: int| 0 <= t < tail_from(bs, i, 0).len() && tail_from(bs, i, 0)[t].0@ == m {
            let t = choose|t: int|
                0 <= t < tail_from(bs, i, 0).len() && tail_from(bs, i, 0)[t].0@ == m;
            if t < here.len() {
                assert(bs[i][t].0@ == m);
            } else {
                assert(rest[t - here.len()].0@ == m);
            }
        }
        if exists|a: int, b: int|
            #![trigger bs[a][b]]
            i <= a < bs.len() && 0 <= b < bs[a].len() && bs[a][b].0@ == m {
            let (a, b) = choose|a: int, b: int|
                #![trigger bs[a][b]]
                i <= a < bs.len() && 0 <= b < bs[a].len() && bs[a][b].0@ == m;
            if a == i {
                assert(tail_from(bs, i, 0)[b].0@ == m);
            } else {
                assert(exists|t: int| 0 <= t < rest.len() && rest[t].0@ == m);
                let t = choose|t: int| 0 <= t < rest.len() && rest[t].0@ == m;
                assert(tail_from(bs, i, 0)[here.len() + t].0@ == m);
            }
        }
    }
}

} // verus!
