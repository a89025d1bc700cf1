//! The table core: bucket store, entry count, and the client operations.

use vstd::prelude::*;

use crate::buckets::count;
use crate::buckets::count_from;
use crate::buckets::covers;
use crate::buckets::distinct_keys;
use crate::buckets::entries;
use crate::buckets::has_key;
use crate::buckets::lemma_count_all_empty;
use crate::buckets::lemma_count_from_update;
use crate::buckets::lemma_count_update;
use crate::buckets::lemma_covers_at;
use crate::buckets::lemma_entry_value;
use crate::buckets::lemma_tail_from_len;
use crate::buckets::lemma_tail_from_membership;
use crate::buckets::moved_from;
use crate::buckets::placed;
use crate::buckets::placed_for;
use crate::buckets::slot_of;
use crate::buckets::store_of;
use crate::buckets::tail_from;
use crate::buckets::valid_pos;
use crate::buckets::value_of;
use crate::hash_key::HashKey;

verus! {

/// A hash table mapping unique keys to values, built on an array of
/// collision buckets.
///
/// Its abstract value (view) is a [`Map`] from the keys' abstract values to
/// the stored values. Every operation's contract is stated over that map.
pub struct HashMap<K, V> {
    buckets: Vec<Vec<(K, V)>>,
    items: usize,
}

impl<K: HashKey, V> View for HashMap<K, V> {
    type V = Map<K::V, V>;

    closed spec fn view(&self) -> Map<K::V, V> {
        Map::new(
            |m: K::V| has_key(self.store(), m),
            |m: K::V| value_of(self.store(), m),
        )
    }
}

impl<K: HashKey, V> HashMap<K, V> {
    /// The bucket store as a sequence of chains.
    pub closed spec fn store(self) -> Seq<Seq<(K, V)>> {
        store_of(self.buckets@)
    }

    /// The current number of buckets.
    pub closed spec fn spec_bucket_count(self) -> nat {
        self.buckets@.len()
    }

    /// Well-formedness: keys are distinct, every entry sits in the bucket
    /// its digest selects, the entry count matches the store, and the load
    /// stays within one entry of three quarters of the bucket count.
    pub closed spec fn wf(self) -> bool {
        &&& distinct_keys(self.store())
        &&& placed(self.store())
        &&& self.items == count(self.store())
        &&& self@.dom().finite()
        &&& self.items == self@.dom().len()
        &&& 4 * self.items <= 3 * self.store().len() + 4
    }

    /// Relates the view to the store: membership in the view is existence of
    /// an entry, and the view's value is that entry's value.
    proof fn lemma_view_is_store(self)
        ensures
            forall|m: K::V| self@.contains_key(m) <==> has_key(self.store(), m),
            forall|m: K::V| self@.contains_key(m) ==> self@[m] == value_of(self.store(), m),
            self@.dom() == Set::new(|m: K::V| has_key(self.store(), m)),
    {
        assert(self@.dom() =~= Set::new(|m: K::V| has_key(self.store(), m)));
    }

    /// Creates an empty table with no buckets.
    pub fn new() -> (r: Self)
        ensures
            r.wf(),
            r@ == Map::<K::V, V>::empty(),
            r.spec_bucket_count() == 0,
    {
        let r = HashMap { buckets: Vec::new(), items: 0usize };
        proof {
            assert(r.store() =~= Seq::<Seq<(K, V)>>::empty());
            assert(forall|m: K::V| !has_key(r.store(), m));
            assert(r@.dom() =~= Set::<K::V>::empty());
            assert(r@ =~= Map::<K::V, V>::empty());
        }
        r
    }

    /// The number of entries stored.
    pub fn len(&self) -> (r: usize)
        requires
            self.wf(),
        ensures
            r == self@.len(),
    {
        self.items
    }

    /// The current length of the bucket store.
    pub fn bucket_count(&self) -> (r: usize)
        ensures
            r == self.spec_bucket_count(),
    {
        self.buckets.len()
    }

    /// The bucket index for `key`: its digest, reduced modulo the bucket
    /// count. The store must not be empty.
    pub fn bucket_index(&self, key: &K) -> (r: usize)
        requires
            self.spec_bucket_count() > 0,
        ensures
            r == slot_of::<K>(key@, self.spec_bucket_count() as int),
            r < self.spec_bucket_count(),
    {
        let d = key.digest();
        let n = self.buckets.len() as u64;
        (d % n) as usize
    }

    /// Looks the key up and returns a reference to its value, if present.
    pub fn get<'a>(&'a self, key: &K) -> (r: Option<&'a V>)
        requires
            self.wf(),
        ensures
            match r {
                Some(v) => self@.contains_key(key@) && *v == self@[key@],
                None => !self@.contains_key(key@),
            },
    {
        proof {
            self.lemma_view_is_store();
        }
        if self.buckets.len() == 0 {
            return None;
        }
        let index = self.bucket_index(key);
        let bucket: &Vec<(K, V)> = &self.buckets[index];
        let ghost bs = self.store();
        let mut j: usize = 0;
        while j < bucket.len()
            invariant
                self.wf(),
                bs == self.store(),
                (index as int) < bs.len(),
                index as int == slot_of::<K>(key@, bs.len() as int),
                bucket@ == bs[index as int],
                j <= bucket@.len(),
                forall|j0: int| 0 <= j0 < j ==> bs[index as int][j0].0@ != key@,
            decreases bucket@.len() - j,
        {
            if bucket[j].0.key_eq(key) {
                proof {
                    lemma_entry_value(bs, index as int, j as int);
                    self.lemma_view_is_store();
                }
                return Some(&bucket[j].1);
            }
            j += 1;
        }
        proof {
            if has_key(bs, key@) {
                let (a, b) = choose|a: int, b: int|
                    #![trigger bs[a][b]]
                    valid_pos(bs, a, b) && bs[a][b].0@ == key@;
                assert(slot_of::<K>(key@, bs.len() as int) == a);
                assert(false);
            }
        }
        None
    }

    /// Inserts the pair. If an entry with an equal key exists, its value is
    /// replaced and the previous value is returned, the entry count
    /// unchanged; otherwise the new entry is appended to its bucket's chain
    /// and the count grows by one. The bucket store is grown first whenever
    /// it is empty or more than three quarters full.
    ///
    /// The bound on the bucket count is a machine limit: it keeps the
    /// resize policy's arithmetic within `usize`.
    pub fn insert(&mut self, key: K, value: V) -> (r: Option<V>)
        requires
            old(self).wf(),
            old(self).spec_bucket_count() <= usize::MAX / 4,
        ensures
            final(self).wf(),
            final(self)@ == old(self)@.insert(key@, value),
            r == (if old(self)@.contains_key(key@) {
                Some(old(self)@[key@])
            } else {
                None::<V>
            }),
            final(self)@.len() == old(self)@.len() + (if old(self)@.contains_key(key@) {
                0int
            } else {
                1int
            }),
            final(self).spec_bucket_count() > 0,
            final(self).spec_bucket_count() >= old(self).spec_bucket_count(),
            final(self).spec_bucket_count() == (if old(self).spec_bucket_count() > 0 && old(
                self,
            )@.len() <= 3 * old(self).spec_bucket_count() / 4 {
                old(self).spec_bucket_count()
            } else if old(self).spec_bucket_count() == 0 {
                1nat
            } else {
                2 * old(self).spec_bucket_count()
            }),
            4 * final(self)@.len() <= 3 * final(self).spec_bucket_count() + 4,
    {
        if self.buckets.len() == 0 || self.items > 3 * self.buckets.len() / 4 {
            self.resize();
        }
        proof {
            assert(4 * self.items <= 3 * self.store().len());
        }
        let ghost mid = *self;
        let index = self.bucket_index(&key);
        let ghost bs = self.store();
        let mut j: usize = 0;
        while j < self.buckets[index].len()
            invariant
                *self == mid,
                mid@ == old(self)@,
                mid.spec_bucket_count() >= old(self).spec_bucket_count(),
                mid.spec_bucket_count() == (if old(self).spec_bucket_count() > 0 && old(
                    self,
                )@.len() <= 3 * old(self).spec_bucket_count() / 4 {
                    old(self).spec_bucket_count()
                } else if old(self).spec_bucket_count() == 0 {
                    1nat
                } else {
                    2 * old(self).spec_bucket_count()
                }),
                self.wf(),
                bs == self.store(),
                (index as int) < bs.len(),
                index as int == slot_of::<K>(key@, bs.len() as int),
                j <= bs[index as int].len(),
                forall|j0: int| 0 <= j0 < j ==> bs[index as int][j0].0@ != key@,
            decreases bs[index as int].len() - j,
        {
            if self.buckets[index][j].0.key_eq(&key) {
                proof {
                    lemma_entry_value(bs, index as int, j as int);
                    mid.lemma_view_is_store();
                }
                let (ekey, evalue) = self.buckets[index].remove(j);
                self.buckets[index].insert(j, (ekey, value));
                proof {
                    let bs2 = self.store();
                    assert(bs2 =~= bs.update(
                        index as int,
                        bs[index as int].remove(j as int).insert(j as int, (ekey, value)),
                    ));
                    assert(bs2[index as int] =~= bs[index as int].update(
                        j as int,
                        (ekey, value),
                    ));
                    assert(bs2 =~= bs.update(
                        index as int,
                        bs[index as int].update(j as int, (ekey, value)),
                    ));
                    lemma_count_update(
                        bs,
                        index as int,
                        bs[index as int].update(j as int, (ekey, value)),
                    );
                    // keys are untouched, so distinctness and placement carry over
                    assert(forall|a: int, b: int|
                        valid_pos(bs2, a, b) ==> valid_pos(bs, a, b) && #[trigger] bs2[a][b].0@
                            == bs[a][b].0@);
                    assert forall|m: K::V| has_key(bs2, m) <==> has_key(bs, m) by {
                        if has_key(bs2, m) {
                            let (a, b) = choose|a: int, b: int|
                                #![trigger bs2[a][b]]
                                valid_pos(bs2, a, b) && bs2[a][b].0@ == m;
                            assert(bs[a][b].0@ == m);
                        }
                        if has_key(bs, m) {
                            let (a, b) = choose|a: int, b: int|
                                #![trigger bs[a][b]]
                                valid_pos(bs, a, b) && bs[a][b].0@ == m;
                            assert(bs2[a][b].0@ == m);
                        }
                    }
                    assert(distinct_keys(bs2));
                    assert(placed(bs2));
                    assert forall|m: K::V| has_key(bs, m) implies value_of(bs2, m) == (if m
                        == key@ {
                        value
                    } else {
                        value_of(bs, m)
                    }) by {
                        let (a, b) = choose|a: int, b: int|
                            #![trigger bs[a][b]]
                            valid_pos(bs, a, b) && bs[a][b].0@ == m;
                        lemma_entry_value(bs, a, b);
                        lemma_entry_value(bs2, a, b);
                        if m == key@ {
                            assert(a == index as int && b == j as int);
                            assert(bs2[a][b].1 == value);
                        } else {
                            assert(!(a == index as int && b == j as int));
                            assert(bs2[a][b].1 == bs[a][b].1);
                        }
                    }
                    self.lemma_view_is_store();
                    assert(self@ =~= mid@.insert(key@, value));
                    assert(self@.dom() =~= mid@.dom());
                }
                return Some(evalue);
            }
            j += 1;
        }
        proof {
            // the key is in no bucket: its slot is `index`, which was scanned
            if has_key(bs, key@) {
                let (a, b) = choose|a: int, b: int|
                    #![trigger bs[a][b]]
                    valid_pos(bs, a, b) && bs[a][b].0@ == key@;
                assert(slot_of::<K>(key@, bs.len() as int) == a);
                assert(false);
            }
            mid.lemma_view_is_store();
        }
        self.buckets[index].push((key, value));
        self.items = self.items + 1;
        proof {
            let bs2 = self.store();
            assert(bs2 =~= bs.update(index as int, bs[index as int].push((key, value))));
            lemma_count_update(bs, index as int, bs[index as int].push((key, value)));
            let jn = bs[index as int].len() as int;
            assert(bs2[index as int][jn] == (key, value));
            assert forall|m: K::V| has_key(bs2, m) <==> (has_key(bs, m) || m == key@) by {
                if has_key(bs2, m) {
                    let (a, b) = choose|a: int, b: int|
                        #![trigger bs2[a][b]]
                        valid_pos(bs2, a, b) && bs2[a][b].0@ == m;
                    if a == index as int && b == jn {
                        assert(m == key@);
                    } else {
                        assert(valid_pos(bs, a, b) && bs[a][b].0@ == m);
                    }
                }
                if has_key(bs, m) {
                    let (a, b) = choose|a: int, b: int|
                        #![trigger bs[a][b]]
                        valid_pos(bs, a, b) && bs[a][b].0@ == m;
                    assert(bs2[a][b].0@ == m);
                }
                if m == key@ {
                    assert(valid_pos(bs2, index as int, jn) && bs2[index as int][jn].0@ == m);
                }
            }
            assert forall|a1: int, b1: int, a2: int, b2: int|
                valid_pos(bs2, a1, b1) && valid_pos(bs2, a2, b2) && #[trigger] bs2[a1][b1].0@
                    == #[trigger] bs2[a2][b2].0@ implies a1 == a2 && b1 == b2 by {
                if a1 == index as int && b1 == jn && !(a2 == index as int && b2 == jn) {
                    assert(valid_pos(bs, a2, b2) && bs[a2][b2].0@ == key@);
                    assert(false);
                } else if a2 == index as int && b2 == jn && !(a1 == index as int && b1 == jn) {
                    assert(valid_pos(bs, a1, b1) && bs[a1][b1].0@ == key@);
                    assert(false);
                } else if !(a1 == index as int && b1 == jn) && !(a2 == index as int && b2 == jn) {
                    assert(valid_pos(bs, a1, b1) && valid_pos(bs, a2, b2));
                    assert(bs[a1][b1].0@ == bs[a2][b2].0@);
                }
            }
            assert(distinct_keys(bs2));
            assert(placed(bs2));
            assert forall|m: K::V| has_key(bs2, m) implies value_of(bs2, m) == (if m == key@ {
                value
            } else {
                value_of(bs, m)
            }) by {
                if m == key@ {
                    lemma_entry_value(bs2, index as int, jn);
                } else {
                    let (a, b) = choose|a: int, b: int|
                        #![trigger bs2[a][b]]
                        valid_pos(bs2, a, b) && bs2[a][b].0@ == m;
                    assert(valid_pos(bs, a, b) && bs[a][b] == bs2[a][b]);
                    lemma_entry_value(bs2, a, b);
                    lemma_entry_value(bs, a, b);
                }
            }
            self.lemma_view_is_store();
            assert(self@ =~= mid@.insert(key@, value));
            assert(self@.dom() =~= mid@.dom().insert(key@));
            vstd::set::axiom_set_insert_len(mid@.dom(), key@);
            vstd::set::axiom_set_insert_finite(mid@.dom(), key@);
        }
        None
    }

    /// Grows the bucket store — to one bucket if it is empty, else to twice
    /// its length — and rehashes every entry into the new store. Entries are
    /// moved, never copied: old buckets are drained front to back, in index
    /// order, and each entry is appended to the new bucket its digest
    /// selects. The table's abstract value is unchanged.
    pub fn resize(&mut self)
        requires
            old(self).wf(),
            old(self).spec_bucket_count() <= usize::MAX / 2,
        ensures
            final(self).wf(),
            final(self)@ == old(self)@,
            final(self).spec_bucket_count() == (if old(self).spec_bucket_count() == 0 {
                1nat
            } else {
                2 * old(self).spec_bucket_count()
            }),
    {
        let target: usize = if self.buckets.len() == 0 {
            1
        } else {
            self.buckets.len() * 2
        };
        let mut new_buckets: Vec<Vec<(K, V)>> = Vec::with_capacity(target);
        while new_buckets.len() < target
            invariant
                new_buckets@.len() <= target,
                forall|a: int| 0 <= a < new_buckets@.len() ==> new_buckets@[a]@.len() == 0,
            decreases target - new_buckets@.len(),
        {
            new_buckets.push(Vec::new());
        }
        let ghost obs = old(self).store();
        let ghost items0 = old(self).items as int;
        let ghost tgt = target as int;
        proof {
            lemma_count_all_empty(store_of(new_buckets@));
        }
        let mut i: usize = 0;
        while i < self.buckets.len()
            invariant
                old(self).wf(),
                obs == old(self).store(),
                items0 == old(self).items as int,
                tgt == target as int,
                tgt == (if obs.len() == 0 { 1int } else { 2 * obs.len() as int }),
                self.items == old(self).items,
                self.store().len() == obs.len(),
                0 <= i <= obs.len(),
                forall|a: int| 0 <= a < i ==> self.store()[a].len() == 0,
                forall|a: int| i <= a < obs.len() ==> self.store()[a] == obs[a],
                store_of(new_buckets@).len() == tgt,
                placed_for(store_of(new_buckets@), tgt),
                distinct_keys(store_of(new_buckets@)),
                moved_from(store_of(new_buckets@), obs, i as int, 0),
                covers(store_of(new_buckets@), obs, i as int, 0),
                count(store_of(new_buckets@)) + count_from(self.store(), i as int) == items0,
            decreases obs.len() - i,
        {
            let ghost mut k: int = 0;
            proof {
                assert(self.store()[i as int] =~= obs[i as int].skip(0));
            }
            while self.buckets[i].len() > 0
                invariant
                    old(self).wf(),
                    obs == old(self).store(),
                    items0 == old(self).items as int,
                    tgt == target as int,
                    self.items == old(self).items,
                    self.store().len() == obs.len(),
                    0 <= i < obs.len(),
                    0 <= k <= obs[i as int].len(),
                    self.store()[i as int] == obs[i as int].skip(k),
                    forall|a: int| 0 <= a < i ==> self.store()[a].len() == 0,
                    forall|a: int| i < a < obs.len() ==> self.store()[a] == obs[a],
                    store_of(new_buckets@).len() == tgt,
                    tgt > 0,
                    placed_for(store_of(new_buckets@), tgt),
                    distinct_keys(store_of(new_buckets@)),
                    moved_from(store_of(new_buckets@), obs, i as int, k),
                    covers(store_of(new_buckets@), obs, i as int, k),
                    count(store_of(new_buckets@)) + count_from(self.store(), i as int)
                        == items0,
                decreases self.store()[i as int].len(),
            {
                let ghost nbs = store_of(new_buckets@);
                let ghost cur = self.store();
                let entry = self.buckets[i].remove(0);
                proof {
                    assert(entry == obs[i as int][k]);
                    assert(self.store() =~= cur.update(i as int, cur[i as int].remove(0)));
                    assert(cur[i as int].remove(0) =~= obs[i as int].skip(k + 1));
                    lemma_count_from_update(
                        cur,
                        i as int,
                        cur[i as int].remove(0),
                        i as int,
                    );
                }
                let d = entry.0.digest();
                let idx = (d % (target as u64)) as usize;
                proof {
                    assert(idx as int == slot_of::<K>(entry.0@, tgt));
                }
                new_buckets[idx].push(entry);
                proof {
                    let nbs2 = store_of(new_buckets@);
                    assert(nbs2 =~= nbs.update(idx as int, nbs[idx as int].push(entry)));
                    lemma_count_update(nbs, idx as int, nbs[idx as int].push(entry));
                    // the moved entry now sits at (idx, |old bucket|)
                    let bnew = nbs[idx as int].len() as int;
                    assert(nbs2[idx as int][bnew] == obs[i as int][k]);
                    // distinctness: a fresh entry's key cannot already be in `to`
                    assert forall|a1: int, b1: int, a2: int, b2: int|
                        valid_pos(nbs2, a1, b1) && valid_pos(nbs2, a2, b2)
                            && #[trigger] nbs2[a1][b1].0@ == #[trigger] nbs2[a2][b2].0@ implies a1
                        == a2 && b1 == b2 by {
                        if a1 == idx as int && b1 == bnew && !(a2 == idx as int && b2 == bnew) {
                            assert(valid_pos(nbs, a2, b2));
                            assert(nbs[a2][b2] == nbs2[a2][b2]);
                            let (x, y) = choose|x: int, y: int|
                                #![trigger obs[x][y]]
                                valid_pos(obs, x, y) && obs[x][y] == nbs[a2][b2] && (x < i as int
                                    || (x == i as int && y < k));
                            assert(obs[x][y].0@ == obs[i as int][k].0@);
                            assert(false);
                        } else if a2 == idx as int && b2 == bnew && !(a1 == idx as int && b1
                            == bnew) {
                            assert(valid_pos(nbs, a1, b1));
                            assert(nbs[a1][b1] == nbs2[a1][b1]);
                            let (x, y) = choose|x: int, y: int|
                                #![trigger obs[x][y]]
                                valid_pos(obs, x, y) && obs[x][y] == nbs[a1][b1] && (x < i as int
                                    || (x == i as int && y < k));
                            assert(obs[x][y].0@ == obs[i as int][k].0@);
                            assert(false);
                        } else if !(a1 == idx as int && b1 == bnew) && !(a2 == idx as int && b2
                            == bnew) {
                            assert(nbs[a1][b1] == nbs2[a1][b1]);
                            assert(nbs[a2][b2] == nbs2[a2][b2]);
                        }
                    }
                    // every new-store entry still comes from before (i, k + 1)
                    assert forall|a: int, b: int| valid_pos(nbs2, a, b) implies exists|
                        x: int,
                        y: int,
                    |
                        #![trigger obs[x][y]]
                        valid_pos(obs, x, y) && obs[x][y] == nbs2[a][b] && (x < i as int || (x == i
                            as int && y < k + 1)) by {
                        if a == idx as int && b == bnew {
                            assert(valid_pos(obs, i as int, k) && obs[i as int][k] == nbs2[a][b]
                                && (i as int) == i as int && k < k + 1);
                        } else {
                            assert(valid_pos(nbs, a, b));
                            assert(nbs[a][b] == nbs2[a][b]);
                            let (x, y) = choose|x: int, y: int|
                                #![trigger obs[x][y]]
                                valid_pos(obs, x, y) && obs[x][y] == nbs[a][b] && (x < i as int
                                    || (x == i as int && y < k));
                            assert(valid_pos(obs, x, y) && obs[x][y] == nbs2[a][b] && (x < i as int
                                || (x == i as int && y < k + 1)));
                        }
                    }
                    // every old entry before (i, k + 1) is covered
                    assert forall|x: int, y: int|
                        valid_pos(obs, x, y) && (x < i as int || (x == i as int && y < k
                            + 1)) implies exists|a: int, b: int|
                        #![trigger nbs2[a][b]]
                        valid_pos(nbs2, a, b) && nbs2[a][b] == obs[x][y] by {
                        if x == i as int && y == k {
                            assert(valid_pos(nbs2, idx as int, bnew) && nbs2[idx as int][bnew]
                                == obs[x][y]);
                        } else {
                            assert(covers(nbs, obs, i as int, k));
                            let (a, b) = choose|a: int, b: int|
                                #![trigger nbs[a][b]]
                                valid_pos(nbs, a, b) && nbs[a][b] == obs[x][y];
                            assert(valid_pos(nbs2, a, b) && nbs2[a][b] == obs[x][y]);
                        }
                    }
                    k = k + 1;
                }
            }
            proof {
                assert(self.store()[i as int] == obs[i as int].skip(k));
                assert(self.store()[i as int].len() == 0);
                assert(k == obs[i as int].len());
                assert(count_from(self.store(), i as int) == count_from(
                    self.store(),
                    i as int + 1,
                ));
                assert(moved_from(store_of(new_buckets@), obs, i as int + 1, 0)) by {
                    let nbs = store_of(new_buckets@);
                    assert forall|a: int, b: int| valid_pos(nbs, a, b) implies exists|
                        x: int,
                        y: int,
                    |
                        #![trigger obs[x][y]]
                        valid_pos(obs, x, y) && obs[x][y] == nbs[a][b] && x < i as int + 1 by {
                        let (x, y) = choose|x: int, y: int|
                            #![trigger obs[x][y]]
                            valid_pos(obs, x, y) && obs[x][y] == nbs[a][b] && (x < i as int || (x
                                == i as int && y < k));
                        assert(valid_pos(obs, x, y) && obs[x][y] == nbs[a][b] && x < i as int + 1);
                    }
                }
                assert(covers(store_of(new_buckets@), obs, i as int + 1, 0)) by {
                    let nbs = store_of(new_buckets@);
                    assert forall|x: int, y: int|
                        valid_pos(obs, x, y) && x < i as int + 1 implies exists|a: int, b: int|
                        #![trigger nbs[a][b]]
                        valid_pos(nbs, a, b) && nbs[a][b] == obs[x][y] by {
                        assert(y < obs[x].len());
                        assert(x < i as int || (x == i as int && y < k));
                        lemma_covers_at(nbs, obs, i as int, k, x, y);
                    }
                }
            }
            i += 1;
        }
        proof {
            lemma_count_all_empty(self.store());
            assert(count_from(self.store(), 0) == count(self.store()));
        }
        self.buckets = new_buckets;
        proof {
            let nbs = final(self).store();
            assert(nbs.len() == tgt);
            // the new store holds exactly the old entries
            assert forall|m: K::V| has_key(nbs, m) <==> has_key(obs, m) by {
                if has_key(nbs, m) {
                    let (a, b) = choose|a: int, b: int|
                        #![trigger nbs[a][b]]
                        valid_pos(nbs, a, b) && nbs[a][b].0@ == m;
                    let (x, y) = choose|x: int, y: int|
                        #![trigger obs[x][y]]
                        valid_pos(obs, x, y) && obs[x][y] == nbs[a][b] && x < obs.len() as int;
                    assert(obs[x][y].0@ == m);
                }
                if has_key(obs, m) {
                    let (x, y) = choose|x: int, y: int|
                        #![trigger obs[x][y]]
                        valid_pos(obs, x, y) && obs[x][y].0@ == m;
                    assert(covers(nbs, obs, obs.len() as int, 0));
                    let (a, b) = choose|a: int, b: int|
                        #![trigger nbs[a][b]]
                        valid_pos(nbs, a, b) && nbs[a][b] == obs[x][y];
                    assert(nbs[a][b].0@ == m);
                }
            }
            assert forall|m: K::V| has_key(obs, m) implies value_of(nbs, m) == value_of(
                obs,
                m,
            ) by {
                let (x, y) = choose|x: int, y: int|
                    #![trigger obs[x][y]]
                    valid_pos(obs, x, y) && obs[x][y].0@ == m;
                assert(covers(nbs, obs, obs.len() as int, 0));
                let (a, b) = choose|a: int, b: int|
                    #![trigger nbs[a][b]]
                    valid_pos(nbs, a, b) && nbs[a][b] == obs[x][y];
                lemma_entry_value(nbs, a, b);
                lemma_entry_value(obs, x, y);
            }
            old(self).lemma_view_is_store();
            final(self).lemma_view_is_store();
            assert(final(self)@ =~= old(self)@);
            assert(final(self)@.dom() =~= old(self)@.dom());
        }
    }

    /// Removes the key's entry and returns its owned value, if present; on
    /// an absent key this is a no-op returning `None`. The removed entry is
    /// replaced by its chain's last entry (swap-with-last-and-pop), so chain
    /// order is not preserved after a removal.
    pub fn remove(&mut self, key: &K) -> (r: Option<V>)
        requires
            old(self).wf(),
        ensures
            final(self).wf(),
            final(self)@ == old(self)@.remove(key@),
            r == (if old(self)@.contains_key(key@) {
                Some(old(self)@[key@])
            } else {
                None::<V>
            }),
            final(self)@.len() == old(self)@.len() - (if old(self)@.contains_key(key@) {
                1int
            } else {
                0int
            }),
            final(self).spec_bucket_count() == old(self).spec_bucket_count(),
    {
        proof {
            old(self).lemma_view_is_store();
        }
        if self.buckets.len() == 0 {
            proof {
                assert(!has_key(old(self).store(), key@));
                assert(old(self)@.remove(key@) =~= old(self)@);
            }
            return None;
        }
        let index = self.bucket_index(key);
        let ghost bs = self.store();
        let mut j: usize = 0;
        while j < self.buckets[index].len()
            invariant
                *self == *old(self),
                old(self).wf(),
                bs == self.store(),
                (index as int) < bs.len(),
                index as int == slot_of::<K>(key@, bs.len() as int),
                j <= bs[index as int].len(),
                forall|j0: int| 0 <= j0 < j ==> bs[index as int][j0].0@ != key@,
            decreases bs[index as int].len() - j,
        {
            if self.buckets[index][j].0.key_eq(key) {
                proof {
                    lemma_entry_value(bs, index as int, j as int);
                    old(self).lemma_view_is_store();
                    vstd::set::axiom_set_remove_len(old(self)@.dom(), key@);
                }
                let pair = self.buckets[index].swap_remove(j);
                self.items = self.items - 1;
                proof {
                    let ii = index as int;
                    let jj = j as int;
                    let b = bs[ii];
                    let ll = b.len() as int;
                    let b2 = b.update(jj, b.last()).drop_last();
                    let bs2 = self.store();
                    assert(bs2 =~= bs.update(ii, b2));
                    lemma_count_update(bs, ii, b2);
                    // each remaining position maps to an entry of the prior chain
                    assert(forall|c: int|
                        0 <= c < ll - 1 ==> #[trigger] b2[c] == (if c == jj {
                            b[ll - 1]
                        } else {
                            b[c]
                        }));
                    assert forall|m: K::V| has_key(bs2, m) <==> (has_key(bs, m) && m
                        != key@) by {
                        if has_key(bs2, m) {
                            let (a, c) = choose|a: int, c: int|
                                #![trigger bs2[a][c]]
                                valid_pos(bs2, a, c) && bs2[a][c].0@ == m;
                            if a == ii {
                                if c == jj {
                                    assert(bs[a][ll - 1].0@ == m);
                                } else {
                                    assert(bs[a][c].0@ == m);
                                }
                            } else {
                                assert(bs[a][c].0@ == m);
                            }
                            if m == key@ {
                                // its prior position would be (ii, jj), now gone
                                assert(false);
                            }
                        }
                        if has_key(bs, m) && m != key@ {
                            let (a, c) = choose|a: int, c: int|
                                #![trigger bs[a][c]]
                                valid_pos(bs, a, c) && bs[a][c].0@ == m;
                            assert(!(a == ii && c == jj));
                            if a == ii && c == ll - 1 {
                                assert(jj < ll - 1);
                                assert(bs2[ii][jj].0@ == m);
                            } else if a == ii && c == jj {
                                assert(false);
                            } else {
                                assert(bs2[a][c].0@ == m);
                            }
                        }
                    }
                    assert forall|a1: int, c1: int, a2: int, c2: int|
                        valid_pos(bs2, a1, c1) && valid_pos(bs2, a2, c2)
                            && #[trigger] bs2[a1][c1].0@ == #[trigger] bs2[a2][c2].0@ implies a1
                        == a2 && c1 == c2 by {
                        let p1 = if a1 == ii && c1 == jj {
                            (a1, ll - 1)
                        } else {
                            (a1, c1)
                        };
                        let p2 = if a2 == ii && c2 == jj {
                            (a2, ll - 1)
                        } else {
                            (a2, c2)
                        };
                        assert(valid_pos(bs, p1.0, p1.1) && bs[p1.0][p1.1] == bs2[a1][c1]);
                        assert(valid_pos(bs, p2.0, p2.1) && bs[p2.0][p2.1] == bs2[a2][c2]);
                        assert(p1 == p2);
                    }
                    assert(distinct_keys(bs2));
                    assert(placed(bs2));
                    assert forall|m: K::V| has_key(bs2, m) implies value_of(bs2, m) == value_of(
                        bs,
                        m,
                    ) by {
                        let (a, c) = choose|a: int, c: int|
                            #![trigger bs2[a][c]]
                            valid_pos(bs2, a, c) && bs2[a][c].0@ == m;
                        lemma_entry_value(bs2, a, c);
                        if a == ii && c == jj {
                            lemma_entry_value(bs, a, ll - 1);
                        } else {
                            lemma_entry_value(bs, a, c);
                        }
                    }
                    self.lemma_view_is_store();
                    assert(self@ =~= old(self)@.remove(key@));
                    assert(self@.dom() =~= old(self)@.dom().remove(key@));
                    vstd::set::axiom_set_remove_len(old(self)@.dom(), key@);
                    vstd::set::axiom_set_remove_finite(old(self)@.dom(), key@);
                }
                return Some(pair.1);
            }
            j += 1;
        }
        proof {
            if has_key(bs, key@) {
                let (a, b) = choose|a: int, b: int|
                    #![trigger bs[a][b]]
                    valid_pos(bs, a, b) && bs[a][b].0@ == key@;
                assert(slot_of::<K>(key@, bs.len() as int) == a);
                assert(false);
            }
            assert(old(self)@.remove(key@) =~= old(self)@);
        }
        None
    }

    /// Tests whether the key is present; defined by `get` succeeding.
    pub fn contains_key(&self, key: &K) -> (r: bool)
        requires
            self.wf(),
        ensures
            r == self@.contains_key(key@),
    {
        self.get(key).is_some()
    }

    /// The table's entries in iteration order: buckets in index order, and
    /// within each bucket the current chain order.
    pub closed spec fn entry_seq(self) -> Seq<(K, V)> {
        entries(self.store())
    }

    /// Starts a fresh iteration over the table.
    pub fn iter<'a>(&'a self) -> (it: Iter<'a, K, V>)
        ensures
            it.wf(),
            it.table() == *self,
            it.remaining() == self.entry_seq(),
    {
        Iter { map: self, bucket_index: 0, key_index: 0 }
    }

    /// Round trip (law): when `post` is the table that `insert(key, value)`
    /// left behind — `post@ == pre@.insert(key@, value)`, as `insert`
    /// ensures — a `get(key)` on `post` yields exactly `value`, since `get`
    /// returns the view's entry for the key.
    pub proof fn lemma_round_trip(pre: Self, post: Self, key: K, value: V)
        requires
            post@ == pre@.insert(key@, value),
        ensures
            post@.contains_key(key@),
            post@[key@] == value,
    {
    }

    /// Update semantics (law): inserting an already-present key leaves the
    /// entry count unchanged, while inserting a new key grows it by one;
    /// `insert`'s own contract adds that the prior value, or `None`, is
    /// returned accordingly.
    pub proof fn lemma_update_semantics(pre: Self, post: Self, key: K, value: V)
        requires
            pre.wf(),
            post@ == pre@.insert(key@, value),
        ensures
            pre@.contains_key(key@) ==> post@.len() == pre@.len(),
            !pre@.contains_key(key@) ==> post@.len() == pre@.len() + 1,
    {
        vstd::set::axiom_set_insert_len(pre@.dom(), key@);
    }

    /// Removal (law): after `remove(key)` the key is absent; if it was
    /// present the entry count dropped by one, and if it was absent the
    /// table is unchanged.
    pub proof fn lemma_removal(pre: Self, post: Self, key: K)
        requires
            pre.wf(),
            post@ == pre@.remove(key@),
        ensures
            !post@.contains_key(key@),
            pre@.contains_key(key@) ==> post@.len() == pre@.len() - 1,
            !pre@.contains_key(key@) ==> post@ == pre@,
    {
        vstd::set::axiom_set_remove_len(pre@.dom(), key@);
        if !pre@.contains_key(key@) {
            assert(pre@.remove(key@) =~= pre@);
        }
    }

    /// Iteration completeness (law): a full iteration yields exactly `len`
    /// pairs, and the keys it yields are exactly the keys the table
    /// contains.
    pub proof fn lemma_iteration_complete(self)
        requires
            self.wf(),
        ensures
            self.entry_seq().len() == self@.len(),
            forall|m: K::V|
                #[trigger] self@.contains_key(m) <==> exists|t: int|
                    0 <= t < self.entry_seq().len() && self.entry_seq()[t].0@ == m,
    {
        let bs = self.store();
        lemma_tail_from_len(bs, 0, 0);
        self.lemma_view_is_store();
        assert forall|m: K::V| #[trigger] self@.contains_key(m) <==> exists|t: int|
            0 <= t < self.entry_seq().len() && self.entry_seq()[t].0@ == m by {
            lemma_tail_from_membership(bs, 0, m);
            let es = self.entry_seq();
            assert(es == tail_from(bs, 0, 0));
            if self@.contains_key(m) {
                let (a, b) = choose|a: int, b: int|
                    #![trigger bs[a][b]]
                    valid_pos(bs, a, b) && bs[a][b].0@ == m;
                assert(0 <= a < bs.len() && 0 <= b < bs[a].len() && bs[a][b].0@ == m);
                let t = choose|t: int|
                    0 <= t < tail_from(bs, 0, 0).len() && tail_from(bs, 0, 0)[t].0@ == m;
                assert(0 <= t < es.len() && es[t].0@ == m);
            }
            if exists|t: int| 0 <= t < es.len() && es[t].0@ == m {
                let t = choose|t: int| 0 <= t < es.len() && es[t].0@ == m;
                assert(0 <= t < tail_from(bs, 0, 0).len() && tail_from(bs, 0, 0)[t].0@ == m);
                let (a, b) = choose|a: int, b: int|
                    #![trigger bs[a][b]]
                    0 <= a < bs.len() && 0 <= b < bs[a].len() && bs[a][b].0@ == m;
                assert(valid_pos(bs, a, b) && bs[a][b].0@ == m);
            }
        }
    }
}

/// A restartable, read-only cursor over a table, producing key and value
/// references in bucket-then-chain order.
pub struct Iter<'a, K, V> {
    map: &'a HashMap<K, V>,
    bucket_index: usize,
    key_index: usize,
}

impl<'a, K: HashKey, V> Iter<'a, K, V> {
    /// The table under iteration.
    pub closed spec fn table(self) -> HashMap<K, V> {
        *self.map
    }

    /// Cursor well-formedness: the position lies within the store.
    pub closed spec fn wf(self) -> bool {
        &&& self.bucket_index <= self.table().store().len()
        &&& (self.bucket_index < self.table().store().len() ==> self.key_index
            <= self.table().store()[self.bucket_index as int].len())
        &&& (self.bucket_index == self.table().store().len() ==> self.key_index == 0)
    }

    /// The entries not yet produced, in order.
    pub closed spec fn remaining(self) -> Seq<(K, V)> {
        tail_from(self.table().store(), self.bucket_index as int, self.key_index as int)
    }

    /// Produces the next key/value pair, or `None` once exactly the whole
    /// entry sequence has been produced.
    pub fn next(&mut self) -> (r: Option<(&'a K, &'a V)>)
        requires
            old(self).wf(),
        ensures
            final(self).wf(),
            final(self).table() == old(self).table(),
            old(self).remaining().len() > 0 ==> (r matches Some(p) && *p.0 == old(
                self,
            ).remaining()[0].0 && *p.1 == old(self).remaining()[0].1 && final(self).remaining()
                == old(self).remaining().drop_first()),
            old(self).remaining().len() == 0 ==> (r is None && final(self).remaining() == old(
                self,
            ).remaining()),
    {
        loop
            invariant
                self.wf(),
                self.map == old(self).map,
                self.remaining() == old(self).remaining(),
            decreases self.table().store().len() - self.bucket_index,
        {
            let ghost bs = self.table().store();
            let ghost b0 = self.bucket_index as int;
            let ghost k0 = self.key_index as int;
            if self.bucket_index < self.map.buckets.len() {
                let map_ref: &'a HashMap<K, V> = self.map;
                if self.key_index < map_ref.buckets[self.bucket_index].len() {
                    let entry = &map_ref.buckets[self.bucket_index][self.key_index];
                    self.key_index = self.key_index + 1;
                    proof {
                        let rem = tail_from(bs, b0, k0);
                        assert(rem == bs[b0].skip(k0) + tail_from(bs, b0 + 1, 0));
                        assert(rem[0] == bs[b0][k0]);
                        assert(bs[b0].skip(k0 + 1) =~= bs[b0].skip(k0).drop_first());
                        assert(self.remaining() =~= rem.drop_first());
                    }
                    return Some((&entry.0, &entry.1));
                } else {
                    self.bucket_index = self.bucket_index + 1;
                    self.key_index = 0;
                    proof {
                        assert(k0 == bs[b0].len());
                        assert(bs[b0].skip(k0) =~= Seq::<(K, V)>::empty());
                        assert(tail_from(bs, b0, k0) =~= tail_from(bs, b0 + 1, 0));
                    }
                }
            } else {
                proof {
                    assert(b0 == bs.len());
                    assert(self.remaining().len() == 0);
                }
                return None;
            }
        }
    }
}

} // verus!
