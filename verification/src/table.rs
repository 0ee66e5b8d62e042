//! A secondary index: a table from a key to the set of the task identifiers
//! that share it.
//!
//! All five secondary indices of the task store have this one shape. A table
//! keeps its buckets in increasing order of their keys and never keeps an
//! empty bucket, so that equal contents are stored, walked and exported in
//! the same way.

use crate::bitmap::{bitmap_set, bitmap_union};
use crate::task::{Kind, Status};
use crate::text::{
    lemma_text_lt_irreflexive, lemma_text_lt_total, lemma_text_lt_transitive, text_lt, text_order,
};
use roaring::RoaringBitmap;
use vstd::prelude::*;

verus! {

/// A key of a secondary index: a value with a strict total order on its
/// view, and a way to compute that order.
pub trait TableKey: View + Sized {
    /// The strict order in which a table keeps its keys.
    spec fn key_lt(a: Self::V, b: Self::V) -> bool;

    /// The order is strict and total.
    proof fn lemma_key_order(a: Self::V, b: Self::V, c: Self::V)
        ensures
            !Self::key_lt(a, a),
            Self::key_lt(a, b) && Self::key_lt(b, c) ==> Self::key_lt(a, c),
            Self::key_lt(a, b) || Self::key_lt(b, a) || a == b,
    ;

    /// -1 where `self` comes first, 1 where `other` does, 0 where they are
    /// the same key.
    fn key_order(&self, other: &Self) -> (r: i8)
        ensures
            r == -1 || r == 0 || r == 1,
            r == -1 <==> Self::key_lt(self@, other@),
            r == 0 <==> self@ == other@,
    ;

    /// A copy of the key.
    fn key_clone(&self) -> (r: Self)
        ensures
            r@ == self@,
    ;
}

impl TableKey for u32 {
    open spec fn key_lt(a: u32, b: u32) -> bool {
        a < b
    }

    proof fn lemma_key_order(a: u32, b: u32, c: u32) {
    }

    fn key_order(&self, other: &Self) -> (r: i8) {
        if *self < *other {
            -1
        } else if *self == *other {
            0
        } else {
            1
        }
    }

    fn key_clone(&self) -> (r: Self) {
        *self
    }
}

impl TableKey for i128 {
    open spec fn key_lt(a: i128, b: i128) -> bool {
        a < b
    }

    proof fn lemma_key_order(a: i128, b: i128, c: i128) {
    }

    fn key_order(&self, other: &Self) -> (r: i8) {
        if *self < *other {
            -1
        } else if *self == *other {
            0
        } else {
            1
        }
    }

    fn key_clone(&self) -> (r: Self) {
        *self
    }
}

impl View for Status {
    type V = Status;

    open spec fn view(&self) -> Status {
        *self
    }
}

impl View for Kind {
    type V = Kind;

    open spec fn view(&self) -> Kind {
        *self
    }
}

impl TableKey for Status {
    open spec fn key_lt(a: Status, b: Status) -> bool {
        a.rank() < b.rank()
    }

    proof fn lemma_key_order(a: Status, b: Status, c: Status) {
    }

    fn key_order(&self, other: &Self) -> (r: i8) {
        let a = self.rank_of();
        let b = other.rank_of();
        if a < b {
            -1
        } else if a == b {
            0
        } else {
            1
        }
    }

    fn key_clone(&self) -> (r: Self) {
        *self
    }
}

impl TableKey for Kind {
    open spec fn key_lt(a: Kind, b: Kind) -> bool {
        a.rank() < b.rank()
    }

    proof fn lemma_key_order(a: Kind, b: Kind, c: Kind) {
    }

    fn key_order(&self, other: &Self) -> (r: i8) {
        let a = self.rank_of();
        let b = other.rank_of();
        if a < b {
            -1
        } else if a == b {
            0
        } else {
            1
        }
    }

    fn key_clone(&self) -> (r: Self) {
        *self
    }
}

impl TableKey for String {
    open spec fn key_lt(a: Seq<char>, b: Seq<char>) -> bool {
        text_lt(a, b)
    }

    proof fn lemma_key_order(a: Seq<char>, b: Seq<char>, c: Seq<char>) {
        lemma_text_lt_irreflexive(a);
        if text_lt(a, b) && text_lt(b, c) {
            lemma_text_lt_transitive(a, b, c);
        }
        lemma_text_lt_total(a, b);
    }

    fn key_order(&self, other: &Self) -> (r: i8) {
        text_order(self.as_str(), other.as_str())
    }

    fn key_clone(&self) -> (r: Self) {
        self.clone()
    }
}

/// The identifiers that a table files under a key: those of its bucket, or
/// none where the key has no bucket.
pub open spec fn bucket_of<K>(table: Map<K, Set<u32>>, k: K) -> Set<u32> {
    if table.contains_key(k) {
        table[k]
    } else {
        Set::empty()
    }
}

/// The table after `uid` has been filed under `k`.
pub open spec fn filed<K>(table: Map<K, Set<u32>>, k: K, uid: u32) -> Map<K, Set<u32>> {
    table.insert(k, bucket_of(table, k).insert(uid))
}

/// The table after `uid` has been taken out of the bucket of `k`; a bucket
/// in which nothing is left is dropped.
pub open spec fn unfiled<K>(table: Map<K, Set<u32>>, k: K, uid: u32) -> Map<K, Set<u32>> {
    if bucket_of(table, k).remove(uid) == Set::<u32>::empty() {
        table.remove(k)
    } else {
        table.insert(k, bucket_of(table, k).remove(uid))
    }
}

/// The table after `uid` has been filed under each key of a set.
pub open spec fn filed_under<K>(table: Map<K, Set<u32>>, keys: Set<K>, uid: u32) -> Map<
    K,
    Set<u32>,
> {
    Map::new(
        |k: K| table.contains_key(k) || keys.contains(k),
        |k: K|
            if keys.contains(k) {
                bucket_of(table, k).insert(uid)
            } else {
                table[k]
            },
    )
}

/// What `filed_under` does to each bucket.
pub proof fn lemma_filed_under<K>(table: Map<K, Set<u32>>, keys: Set<K>, uid: u32)
    ensures
        forall|k: K|
            (#[trigger] bucket_of(filed_under(table, keys, uid), k)) == (if keys.contains(k) {
                bucket_of(table, k).insert(uid)
            } else {
                bucket_of(table, k)
            }),
        canonical(table) ==> canonical(filed_under(table, keys, uid)),
{
    assert forall|k: K| #[trigger] filed_under(table, keys, uid).contains_key(k) && keys.contains(k)
        implies filed_under(table, keys, uid)[k] != Set::<u32>::empty() by {
        assert(bucket_of(table, k).insert(uid).contains(uid));
    }
}

/// The table after `uid` has been taken out of the bucket of each key of a
/// set; buckets in which nothing is left are dropped.
pub open spec fn unfiled_under<K>(table: Map<K, Set<u32>>, keys: Set<K>, uid: u32) -> Map<
    K,
    Set<u32>,
> {
    Map::new(
        |k: K|
            table.contains_key(k) && !(keys.contains(k) && table[k].remove(uid) == Set::<
                u32,
            >::empty()),
        |k: K|
            if keys.contains(k) {
                table[k].remove(uid)
            } else {
                table[k]
            },
    )
}

/// What `unfiled_under` does to each bucket.
pub proof fn lemma_unfiled_under<K>(table: Map<K, Set<u32>>, keys: Set<K>, uid: u32)
    ensures
        forall|k: K|
            (#[trigger] bucket_of(unfiled_under(table, keys, uid), k)) == (if keys.contains(k) {
                bucket_of(table, k).remove(uid)
            } else {
                bucket_of(table, k)
            }),
        canonical(table) ==> canonical(unfiled_under(table, keys, uid)),
{
    assert(Set::<u32>::empty().remove(uid) =~= Set::<u32>::empty());
}

/// No bucket of the table is empty.
pub open spec fn canonical<K>(table: Map<K, Set<u32>>) -> bool {
    forall|k: K| #[trigger] table.contains_key(k) ==> table[k] != Set::<u32>::empty()
}

/// What `filed` does to each bucket.
pub proof fn lemma_filed<K>(table: Map<K, Set<u32>>, key: K, uid: u32)
    ensures
        forall|k: K|
            (#[trigger] bucket_of(filed(table, key, uid), k)) == (if k == key {
                bucket_of(table, k).insert(uid)
            } else {
                bucket_of(table, k)
            }),
        canonical(table) ==> canonical(filed(table, key, uid)),
{
    assert(bucket_of(table, key).insert(uid).contains(uid));
}

/// What `unfiled` does to each bucket.
pub proof fn lemma_unfiled<K>(table: Map<K, Set<u32>>, key: K, uid: u32)
    ensures
        forall|k: K|
            (#[trigger] bucket_of(unfiled(table, key, uid), k)) == (if k == key {
                bucket_of(table, k).remove(uid)
            } else {
                bucket_of(table, k)
            }),
        canonical(table) ==> canonical(unfiled(table, key, uid)),
{
    assert(Set::<u32>::empty().remove(uid) =~= Set::<u32>::empty());
}

/// Two tables without empty buckets that file the same identifiers under
/// every key are the same table.
pub proof fn lemma_same_buckets<K>(a: Map<K, Set<u32>>, b: Map<K, Set<u32>>)
    requires
        canonical(a),
        canonical(b),
        forall|k: K| #[trigger] bucket_of(a, k) == bucket_of(b, k),
    ensures
        a == b,
{
    assert forall|k: K| a.contains_key(k) == b.contains_key(k) by {
        assert(bucket_of(a, k) == bucket_of(b, k));
    }
    assert forall|k: K| a.contains_key(k) implies a[k] == b[k] by {
        assert(bucket_of(a, k) == bucket_of(b, k));
    }
    assert(a =~= b);
}

/// The keys of a table in increasing order.
pub open spec fn sorted_keys<K: TableKey>(table: Map<K::V, Set<u32>>) -> Seq<K::V> {
    choose|keys: Seq<K::V>|
        keys_ascending::<K>(keys) && forall|k: K::V| keys.contains(k) <==> table.contains_key(k)
}

/// One bucket of a table: a key and the identifiers filed under it.
pub struct Bucket<K> {
    key: K,
    ids: RoaringBitmap,
}

/// A table from keys to non-empty sets of task identifiers.
pub struct BitmapTable<K> {
    buckets: Vec<Bucket<K>>,
}

/// Keys in strictly increasing order.
pub open spec fn keys_ascending<K: TableKey>(keys: Seq<K::V>) -> bool {
    forall|i: int, j: int| 0 <= i < j < keys.len() ==> K::key_lt(#[trigger] keys[i], #[trigger] keys[j])
}

impl<K: TableKey> View for BitmapTable<K> {
    type V = Map<K::V, Set<u32>>;

    /// The table as a map from each key that has a bucket to the set of
    /// identifiers in that bucket.
    open spec fn view(&self) -> Map<K::V, Set<u32>> {
        Map::new(
            |k: K::V| self.keys().contains(k),
            |k: K::V| self.sets()[self.keys().index_of(k)],
        )
    }
}

impl<K: TableKey> BitmapTable<K> {
    /// The keys of the buckets, in the order in which they are stored.
    pub closed spec fn keys(&self) -> Seq<K::V> {
        Seq::new(self.buckets@.len(), |i: int| self.buckets@[i].key@)
    }

    /// The contents of the buckets, in the order in which they are stored.
    pub closed spec fn sets(&self) -> Seq<Set<u32>> {
        Seq::new(self.buckets@.len(), |i: int| bitmap_set(self.buckets@[i].ids))
    }

    /// The keys strictly increase, and no bucket is empty.
    pub open spec fn wf(&self) -> bool {
        &&& self.keys().len() == self.sets().len()
        &&& keys_ascending::<K>(self.keys())
        &&& forall|i: int| 0 <= i < self.sets().len() ==> #[trigger] self.sets()[i] != Set::<u32>::empty()
    }

    /// The bucket stored at position `i` is the one that the map holds for
    /// its key.
    pub proof fn lemma_view_at(&self, i: int)
        requires
            self.wf(),
            0 <= i < self.keys().len(),
        ensures
            self@.contains_key(self.keys()[i]),
            self@[self.keys()[i]] == self.sets()[i],
            bucket_of(self@, self.keys()[i]) == self.sets()[i],
            self.keys().index_of(self.keys()[i]) == i,
    {
        let k = self.keys()[i];
        assert(self.keys().contains(k));
        let j = self.keys().index_of(k);
        assert(0 <= j < self.keys().len() && self.keys()[j] == k);
        K::lemma_key_order(k, k, k);
        if j < i {
            assert(K::key_lt(self.keys()[j], self.keys()[i]));
        } else if i < j {
            assert(K::key_lt(self.keys()[i], self.keys()[j]));
        }
    }

    /// The map of a well-formed table has no empty bucket.
    pub proof fn lemma_canonical_view(&self)
        requires
            self.wf(),
        ensures
            canonical(self@),
    {
        assert forall|k: K::V| #[trigger] self@.contains_key(k) implies self@[k] != Set::<u32>::empty() by {
            self.lemma_view_key(k);
        }
    }

    /// The buckets are stored in the increasing order of the keys of the
    /// map, each with the set that the map holds for its key.
    pub proof fn lemma_sorted_keys(&self)
        requires
            self.wf(),
        ensures
            self.keys() == sorted_keys::<K>(self@),
            forall|i: int|
                0 <= i < self.keys().len() ==> #[trigger] self.sets()[i] == self@[self.keys()[i]],
    {
        let mine = self.keys();
        assert forall|k: K::V| mine.contains(k) <==> self@.contains_key(k) by {}
        let q = sorted_keys::<K>(self@);
        assert(keys_ascending::<K>(q) && forall|k: K::V| q.contains(k) <==> self@.contains_key(k));
        Self::lemma_same_keys(mine, q);
        assert forall|i: int| 0 <= i < self.keys().len() implies #[trigger] self.sets()[i]
            == self@[self.keys()[i]] by {
            self.lemma_view_at(i);
        }
    }

    /// Every key of the map is the key of a stored bucket, and no set in
    /// the map is empty.
    pub proof fn lemma_view_key(&self, k: K::V)
        requires
            self.wf(),
            self@.contains_key(k),
        ensures
            0 <= self.keys().index_of(k) < self.keys().len(),
            self.keys()[self.keys().index_of(k)] == k,
            self@[k] == self.sets()[self.keys().index_of(k)],
            self@[k] != Set::<u32>::empty(),
    {
        assert(self.keys().contains(k));
    }

    /// Two well-formed tables with the same map store the same buckets in
    /// the same order.
    pub proof fn lemma_canonical(&self, other: &Self)
        requires
            self.wf(),
            other.wf(),
            self@ == other@,
        ensures
            self.keys() == other.keys(),
            self.sets() == other.sets(),
    {
        assert forall|k: K::V| self.keys().contains(k) <==> other.keys().contains(k) by {
            assert(self@.contains_key(k) == self.keys().contains(k));
            assert(other@.contains_key(k) == other.keys().contains(k));
        }
        Self::lemma_same_keys(self.keys(), other.keys());
        assert forall|i: int| 0 <= i < self.sets().len() implies self.sets()[i] == other.sets()[i] by {
            self.lemma_view_at(i);
            other.lemma_view_at(i);
        }
        assert(self.sets() =~= other.sets());
    }

    /// Two strictly increasing sequences with the same members are equal.
    pub proof fn lemma_same_keys(a: Seq<K::V>, b: Seq<K::V>)
        requires
            keys_ascending::<K>(a),
            keys_ascending::<K>(b),
            forall|k: K::V| a.contains(k) <==> b.contains(k),
        ensures
            a == b,
        decreases a.len(),
    {
        if a.len() == 0 {
            if b.len() > 0 {
                assert(b.contains(b[0]));
            }
            assert(a =~= b);
        } else if b.len() == 0 {
            assert(a.contains(a[0]));
        } else {
            // the first keys are the smallest ones: they must agree
            assert(a.contains(a[0]));
            assert(b.contains(b[0]));
            let ia = choose|i: int| 0 <= i < b.len() && b[i] == a[0];
            let ib = choose|i: int| 0 <= i < a.len() && a[i] == b[0];
            K::lemma_key_order(a[0], b[0], a[0]);
            if ia > 0 {
                assert(K::key_lt(b[0], b[ia]));
            }
            if ib > 0 {
                assert(K::key_lt(a[0], a[ib]));
            }
            assert(a[0] == b[0]);
            let ra = a.drop_first();
            let rb = b.drop_first();
            assert forall|k: K::V| ra.contains(k) <==> rb.contains(k) by {
                K::lemma_key_order(k, a[0], k);
                if ra.contains(k) {
                    let i = choose|i: int| 0 <= i < ra.len() && ra[i] == k;
                    assert(a[i + 1] == k);
                    assert(K::key_lt(a[0], a[i + 1]));
                    assert(a.contains(k));
                    let j = choose|j: int| 0 <= j < b.len() && b[j] == k;
                    assert(j > 0);
                    assert(rb[j - 1] == k);
                }
                if rb.contains(k) {
                    let i = choose|i: int| 0 <= i < rb.len() && rb[i] == k;
                    assert(b[i + 1] == k);
                    assert(K::key_lt(b[0], b[i + 1]));
                    assert(b.contains(k));
                    let j = choose|j: int| 0 <= j < a.len() && a[j] == k;
                    assert(j > 0);
                    assert(ra[j - 1] == k);
                }
            }
            assert(keys_ascending::<K>(ra)) by {
                assert forall|i: int, j: int| 0 <= i < j < ra.len() implies K::key_lt(
                    #[trigger] ra[i],
                    #[trigger] ra[j],
                ) by {
                    assert(K::key_lt(a[i + 1], a[j + 1]));
                }
            }
            assert(keys_ascending::<K>(rb)) by {
                assert forall|i: int, j: int| 0 <= i < j < rb.len() implies K::key_lt(
                    #[trigger] rb[i],
                    #[trigger] rb[j],
                ) by {
                    assert(K::key_lt(b[i + 1], b[j + 1]));
                }
            }
            Self::lemma_same_keys(ra, rb);
            assert(a =~= seq![a[0]] + ra);
            assert(b =~= seq![b[0]] + rb);
        }
    }

    /// A table without buckets.
    pub fn new() -> (t: Self)
        ensures
            t.wf(),
            t@ == Map::<K::V, Set<u32>>::empty(),
            t.keys().len() == 0,
    {
        let t = BitmapTable { buckets: Vec::new() };
        assert(t@ =~= Map::<K::V, Set<u32>>::empty());
        t
    }

    /// The number of buckets.
    pub fn len(&self) -> (n: usize)
        ensures
            n == self.keys().len(),
            n == self.sets().len(),
    {
        self.buckets.len()
    }

    /// The key of the bucket at position `i`.
    pub fn key_at(&self, i: usize) -> (k: &K)
        requires
            i < self.keys().len(),
        ensures
            k@ == self.keys()[i as int],
    {
        &self.buckets[i].key
    }

    /// The identifiers of the bucket at position `i`.
    pub fn ids_at(&self, i: usize) -> (r: &RoaringBitmap)
        requires
            i < self.keys().len(),
        ensures
            bitmap_set(*r) == self.sets()[i as int],
    {
        &self.buckets[i].ids
    }

    /// Where the bucket of `key` is stored, or where it would have to go.
    fn position(&self, key: &K) -> (r: (usize, bool))
        requires
            self.wf(),
        ensures
            r.0 <= self.keys().len(),
            forall|j: int| 0 <= j < r.0 ==> K::key_lt(#[trigger] self.keys()[j], key@),
            r.1 ==> r.0 < self.keys().len() && self.keys()[r.0 as int] == key@,
            !r.1 ==> !self.keys().contains(key@),
            !r.1 && r.0 < self.keys().len() ==> K::key_lt(key@, self.keys()[r.0 as int]),
    {
        let mut i: usize = 0;
        while i < self.buckets.len()
            invariant
                self.wf(),
                i <= self.keys().len(),
                self.keys().len() == self.buckets@.len(),
                forall|j: int| 0 <= j < i ==> K::key_lt(#[trigger] self.keys()[j], key@),
            decreases self.buckets.len() - i,
        {
            let o = self.buckets[i].key.key_order(key);
            if o == 0 {
                return (i, true);
            }
            if o == 1 {
                proof {
                    K::lemma_key_order(key@, self.keys()[i as int], key@);
                    assert(K::key_lt(key@, self.keys()[i as int]));
                    assert forall|j: int| 0 <= j < self.keys().len() implies self.keys()[j]
                        != key@ by {
                        K::lemma_key_order(self.keys()[j], key@, self.keys()[i as int]);
                        K::lemma_key_order(key@, self.keys()[i as int], self.keys()[j]);
                        if j > i {
                            assert(K::key_lt(self.keys()[i as int], self.keys()[j]));
                        }
                    }
                }
                return (i, false);
            }
            i = i + 1;
        }
        proof {
            assert forall|j: int| 0 <= j < self.keys().len() implies self.keys()[j] != key@ by {
                K::lemma_key_order(self.keys()[j], key@, key@);
            }
        }
        (i, false)
    }

    /// The identifiers filed under `key`, if it has a bucket.
    pub fn get(&self, key: &K) -> (r: Option<&RoaringBitmap>)
        requires
            self.wf(),
        ensures
            match r {
                Some(ids) => self@.contains_key(key@) && bitmap_set(*ids) == self@[key@],
                None => !self@.contains_key(key@),
            },
    {
        let (i, found) = self.position(key);
        if found {
            proof {
                self.lemma_view_at(i as int);
            }
            Some(&self.buckets[i].ids)
        } else {
            None
        }
    }

    /// What the map becomes when the set of one bucket is replaced.
    proof fn lemma_updated(&self, new: &Self, i: int, s: Set<u32>)
        requires
            self.wf(),
            0 <= i < self.keys().len(),
            new.keys() == self.keys(),
            new.sets() == self.sets().update(i, s),
            s != Set::<u32>::empty(),
        ensures
            new.wf(),
            new@ == self@.insert(self.keys()[i], s),
    {
        assert(new.wf());
        let expected = self@.insert(self.keys()[i], s);
        assert forall|k: K::V| new@.contains_key(k) == expected.contains_key(k) by {
            assert(new@.contains_key(k) == new.keys().contains(k));
            assert(self@.contains_key(k) == self.keys().contains(k));
            assert(self.keys().contains(self.keys()[i]));
        }
        assert forall|k: K::V| new@.contains_key(k) implies new@[k] == expected[k] by {
            new.lemma_view_key(k);
            let j = new.keys().index_of(k);
            new.lemma_view_at(j);
            self.lemma_view_at(j);
            self.lemma_view_at(i);
        }
        assert(new@ =~= expected);
    }

    /// What the map becomes when a bucket is put in at its place.
    proof fn lemma_inserted(&self, new: &Self, i: int, k: K::V, s: Set<u32>)
        requires
            self.wf(),
            0 <= i <= self.keys().len(),
            new.keys() == self.keys().insert(i, k),
            new.sets() == self.sets().insert(i, s),
            s != Set::<u32>::empty(),
            forall|j: int| 0 <= j < i ==> K::key_lt(#[trigger] self.keys()[j], k),
            i < self.keys().len() ==> K::key_lt(k, self.keys()[i]),
        ensures
            new.wf(),
            !self@.contains_key(k),
            new@ == self@.insert(k, s),
    {
        let ok = self.keys();
        let nk = new.keys();
        assert forall|a: int, b: int| 0 <= a < b < nk.len() implies K::key_lt(
            #[trigger] nk[a],
            #[trigger] nk[b],
        ) by {
            if b < i {
                assert(K::key_lt(ok[a], ok[b]));
            } else if b == i {
                assert(K::key_lt(ok[a], k));
            } else if a < i {
                assert(K::key_lt(ok[a], ok[b - 1]));
            } else if a == i {
                if b - 1 > i {
                    assert(K::key_lt(ok[i], ok[b - 1]));
                    K::lemma_key_order(k, ok[i], ok[b - 1]);
                }
            } else {
                assert(K::key_lt(ok[a - 1], ok[b - 1]));
            }
        }
        assert forall|j: int| 0 <= j < new.sets().len() implies #[trigger] new.sets()[j]
            != Set::<u32>::empty() by {
            if j < i {
                assert(new.sets()[j] == self.sets()[j]);
            } else if j > i {
                assert(new.sets()[j] == self.sets()[j - 1]);
            }
        }
        assert(new.wf());
        assert forall|j: int| 0 <= j < ok.len() implies ok[j] != k by {
            K::lemma_key_order(k, k, k);
            if j >= i {
                if j > i {
                    assert(K::key_lt(ok[i], ok[j]));
                    K::lemma_key_order(k, ok[i], ok[j]);
                }
            } else {
                assert(K::key_lt(ok[j], k));
            }
        }
        assert(!ok.contains(k));
        let expected = self@.insert(k, s);
        assert forall|x: K::V| new@.contains_key(x) == expected.contains_key(x) by {
            assert(new@.contains_key(x) == nk.contains(x));
            assert(self@.contains_key(x) == ok.contains(x));
            if ok.contains(x) {
                let j = choose|j: int| 0 <= j < ok.len() && ok[j] == x;
                if j < i {
                    assert(nk[j] == x);
                } else {
                    assert(nk[j + 1] == x);
                }
            }
            if nk.contains(x) {
                let j = choose|j: int| 0 <= j < nk.len() && nk[j] == x;
                if j < i {
                    assert(ok[j] == x);
                } else if j > i {
                    assert(ok[j - 1] == x);
                }
            }
            assert(nk[i] == k);
        }
        assert forall|x: K::V| new@.contains_key(x) implies new@[x] == expected[x] by {
            new.lemma_view_key(x);
            let j = nk.index_of(x);
            new.lemma_view_at(j);
            if j < i {
                self.lemma_view_at(j);
            } else if j > i {
                self.lemma_view_at(j - 1);
            }
        }
        assert(new@ =~= expected);
    }

    /// What the map becomes when a bucket is taken out.
    proof fn lemma_removed(&self, new: &Self, i: int)
        requires
            self.wf(),
            0 <= i < self.keys().len(),
            new.keys() == self.keys().remove(i),
            new.sets() == self.sets().remove(i),
        ensures
            new.wf(),
            new@ == self@.remove(self.keys()[i]),
    {
        let ok = self.keys();
        let nk = new.keys();
        assert forall|a: int, b: int| 0 <= a < b < nk.len() implies K::key_lt(
            #[trigger] nk[a],
            #[trigger] nk[b],
        ) by {
            let a0 = if a < i { a } else { a + 1 };
            let b0 = if b < i { b } else { b + 1 };
            assert(K::key_lt(ok[a0], ok[b0]));
        }
        assert forall|j: int| 0 <= j < new.sets().len() implies #[trigger] new.sets()[j]
            != Set::<u32>::empty() by {
            let j0 = if j < i { j } else { j + 1 };
            assert(new.sets()[j] == self.sets()[j0]);
        }
        assert(new.wf());
        let expected = self@.remove(ok[i]);
        assert forall|x: K::V| new@.contains_key(x) == expected.contains_key(x) by {
            assert(new@.contains_key(x) == nk.contains(x));
            assert(self@.contains_key(x) == ok.contains(x));
            if nk.contains(x) {
                let j = choose|j: int| 0 <= j < nk.len() && nk[j] == x;
                let j0 = if j < i { j } else { j + 1 };
                assert(ok[j0] == x);
                self.lemma_view_at(j0);
                self.lemma_view_at(i);
            }
            if ok.contains(x) && x != ok[i] {
                let j = choose|j: int| 0 <= j < ok.len() && ok[j] == x;
                if j < i {
                    assert(nk[j] == x);
                } else {
                    assert(nk[j - 1] == x);
                }
            }
        }
        assert forall|x: K::V| new@.contains_key(x) implies new@[x] == expected[x] by {
            new.lemma_view_key(x);
            let j = nk.index_of(x);
            new.lemma_view_at(j);
            let j0 = if j < i { j } else { j + 1 };
            self.lemma_view_at(j0);
            self.lemma_view_at(i);
            assert(nk[j] == ok[j0]);
            assert(new.sets()[j] == self.sets()[j0]);
            assert(x != ok[i]);
        }
        assert(new@ =~= expected);
    }

    /// Files `uid` under `key`, in a new bucket where the key had none.
    pub fn insert(&mut self, key: K, uid: u32)
        requires
            old(self).wf(),
        ensures
            final(self).wf(),
            final(self)@ == filed(old(self)@, key@, uid),
            forall|k: K::V| (#[trigger] bucket_of(final(self)@, k)) == (if k == key@ {
                    bucket_of(old(self)@, k).insert(uid)
                } else {
                    bucket_of(old(self)@, k)
                }),
    {
        let (i, found) = self.position(&key);
        let ghost before = *self;
        if found {
            proof {
                self.lemma_view_at(i as int);
            }
            let _ = self.buckets[i].ids.insert(uid);
            proof {
                let s = before.sets()[i as int].insert(uid);
                assert(s.contains(uid));
                assert(self.keys() =~= before.keys());
                assert(self.sets() =~= before.sets().update(i as int, s));
                before.lemma_updated(self, i as int, s);
            }
        } else {
            let mut ids = RoaringBitmap::new();
            let _ = ids.insert(uid);
            self.buckets.insert(i, Bucket { key, ids });
            proof {
                let s = Set::<u32>::empty().insert(uid);
                assert(s.contains(uid));
                assert(self.keys() =~= before.keys().insert(i as int, key@));
                assert(self.sets() =~= before.sets().insert(i as int, s));
                before.lemma_inserted(self, i as int, key@, s);
            }
        }
    }

    /// Takes `uid` out of the bucket of `key`, and drops the bucket where
    /// nothing is left in it.
    pub fn remove(&mut self, key: &K, uid: u32)
        requires
            old(self).wf(),
        ensures
            final(self).wf(),
            final(self)@ == unfiled(old(self)@, key@, uid),
            forall|k: K::V| (#[trigger] bucket_of(final(self)@, k)) == (if k == key@ {
                    bucket_of(old(self)@, k).remove(uid)
                } else {
                    bucket_of(old(self)@, k)
                }),
    {
        let (i, found) = self.position(key);
        let ghost before = *self;
        if found {
            proof {
                self.lemma_view_at(i as int);
            }
            let _ = self.buckets[i].ids.remove(uid);
            let ghost s = before.sets()[i as int].remove(uid);
            if self.buckets[i].ids.is_empty() {
                let _ = self.buckets.remove(i);
                proof {
                    assert(self.keys() =~= before.keys().remove(i as int));
                    assert(self.sets() =~= before.sets().remove(i as int));
                    before.lemma_removed(self, i as int);
                }
            } else {
                proof {
                    assert(self.keys() =~= before.keys());
                    assert(self.sets() =~= before.sets().update(i as int, s));
                    before.lemma_updated(self, i as int, s);
                }
            }
        } else {
            proof {
                assert(!self@.contains_key(key@));
                assert(Set::<u32>::empty().remove(uid) =~= Set::<u32>::empty());
                assert(self@.remove(key@) =~= self@);
            }
        }
    }

    /// The identifiers filed under any key at all.
    pub fn union_all(&self) -> (r: RoaringBitmap)
        requires
            self.wf(),
        ensures
            bitmap_set(r) == Set::new(
                |uid: u32| exists|k: K::V| (#[trigger] bucket_of(self@, k).contains(uid)),
            ),
    {
        let mut acc = RoaringBitmap::new();
        let mut i: usize = 0;
        while i < self.buckets.len()
            invariant
                self.wf(),
                i <= self.buckets@.len(),
                self.buckets@.len() == self.keys().len(),
                bitmap_set(acc) == Set::new(
                    |uid: u32| exists|j: int| 0 <= j < i && (#[trigger] self.sets()[j]).contains(uid),
                ),
            decreases self.buckets.len() - i,
        {
            let ghost before = bitmap_set(acc);
            acc = bitmap_union(&acc, &self.buckets[i].ids);
            proof {
                let want = Set::new(
                    |uid: u32|
                        exists|j: int| 0 <= j < i + 1 && (#[trigger] self.sets()[j]).contains(uid),
                );
                assert forall|uid: u32| bitmap_set(acc).contains(uid) == want.contains(uid) by {
                    if before.contains(uid) {
                        let j = choose|j: int| 0 <= j < i && (#[trigger] self.sets()[j]).contains(uid);
                        assert(self.sets()[j].contains(uid));
                    }
                    if self.sets()[i as int].contains(uid) {
                    }
                    if want.contains(uid) {
                        let j = choose|j: int|
                            0 <= j < i + 1 && (#[trigger] self.sets()[j]).contains(uid);
                        if j < i {
                            assert(before.contains(uid));
                        }
                    }
                }
                assert(bitmap_set(acc) =~= want);
            }
            i = i + 1;
        }
        proof {
            let want = Set::new(
                |uid: u32| exists|k: K::V| (#[trigger] bucket_of(self@, k).contains(uid)),
            );
            assert forall|uid: u32| bitmap_set(acc).contains(uid) == want.contains(uid) by {
                if bitmap_set(acc).contains(uid) {
                    let j = choose|j: int| 0 <= j < i && (#[trigger] self.sets()[j]).contains(uid);
                    self.lemma_view_at(j);
                    assert(bucket_of(self@, self.keys()[j]).contains(uid));
                }
                if want.contains(uid) {
                    let k = choose|k: K::V| (#[trigger] bucket_of(self@, k).contains(uid));
                    self.lemma_view_key(k);
                    let j = self.keys().index_of(k);
                    assert(self.sets()[j].contains(uid));
                }
            }
            assert(bitmap_set(acc) =~= want);
        }
        acc
    }

    /// The identifiers filed under one of the given keys.
    pub fn union_of(&self, keys: &Vec<K>) -> (r: RoaringBitmap)
        requires
            self.wf(),
        ensures
            bitmap_set(r) == Set::new(
                |uid: u32|
                    exists|j: int|
                        0 <= j < keys@.len() && (#[trigger] bucket_of(self@, keys@[j]@)).contains(uid),
            ),
    {
        let mut acc = RoaringBitmap::new();
        let mut i: usize = 0;
        while i < keys.len()
            invariant
                self.wf(),
                i <= keys@.len(),
                bitmap_set(acc) == Set::new(
                    |uid: u32|
                        exists|j: int|
                            0 <= j < i && (#[trigger] bucket_of(self@, keys@[j]@)).contains(uid),
                ),
            decreases keys.len() - i,
        {
            let ghost before = bitmap_set(acc);
            let ghost want = Set::new(
                |uid: u32|
                    exists|j: int|
                        0 <= j < i + 1 && (#[trigger] bucket_of(self@, keys@[j]@)).contains(uid),
            );
            match self.get(&keys[i]) {
                Some(ids) => {
                    acc = bitmap_union(&acc, ids);
                },
                None => {},
            }
            proof {
                assert forall|uid: u32| bitmap_set(acc).contains(uid) == want.contains(uid) by {
                    if before.contains(uid) {
                        let j = choose|j: int|
                            0 <= j < i && (#[trigger] bucket_of(self@, keys@[j]@)).contains(uid);
                        assert(bucket_of(self@, keys@[j]@).contains(uid));
                    }
                    if bucket_of(self@, keys@[i as int]@).contains(uid) {
                    }
                    if want.contains(uid) {
                        let j = choose|j: int|
                            0 <= j < i + 1 && (#[trigger] bucket_of(self@, keys@[j]@)).contains(uid);
                        if j < i {
                            assert(before.contains(uid));
                        }
                    }
                }
                assert(bitmap_set(acc) =~= want);
            }
            i = i + 1;
        }
        acc
    }
}

/// Whether a date lies strictly between two optional bounds.
pub open spec fn in_range(at: i128, after: Option<i128>, before: Option<i128>) -> bool {
    &&& after matches Some(a) ==> at > a
    &&& before matches Some(b) ==> at < b
}

impl BitmapTable<i128> {
    /// The identifiers filed under a date strictly between the two bounds.
    pub fn union_in_range(&self, after: Option<i128>, before: Option<i128>) -> (r: RoaringBitmap)
        requires
            self.wf(),
        ensures
            bitmap_set(r) == Set::new(
                |uid: u32|
                    exists|k: i128|
                        in_range(k, after, before) && (#[trigger] bucket_of(self@, k)).contains(uid),
            ),
    {
        let mut acc = RoaringBitmap::new();
        let mut i: usize = 0;
        while i < self.buckets.len()
            invariant
                self.wf(),
                i <= self.buckets@.len(),
                self.buckets@.len() == self.keys().len(),
                bitmap_set(acc) == Set::new(
                    |uid: u32|
                        exists|j: int|
                            0 <= j < i && in_range(self.keys()[j], after, before) && (
                            #[trigger] self.sets()[j]).contains(uid),
                ),
            decreases self.buckets.len() - i,
        {
            let ghost old_set = bitmap_set(acc);
            let ghost want = Set::new(
                |uid: u32|
                    exists|j: int|
                        0 <= j < i + 1 && in_range(self.keys()[j], after, before) && (
                        #[trigger] self.sets()[j]).contains(uid),
            );
            let at = self.buckets[i].key;
            let above = match after {
                Some(a) => at > a,
                None => true,
            };
            let below = match before {
                Some(b) => at < b,
                None => true,
            };
            if above && below {
                acc = bitmap_union(&acc, &self.buckets[i].ids);
            }
            proof {
                assert(self.keys()[i as int] == at);
                assert forall|uid: u32| bitmap_set(acc).contains(uid) == want.contains(uid) by {
                    if old_set.contains(uid) {
                        let j = choose|j: int|
                            0 <= j < i && in_range(self.keys()[j], after, before) && (
                            #[trigger] self.sets()[j]).contains(uid);
                        assert(self.sets()[j].contains(uid));
                    }
                    if self.sets()[i as int].contains(uid) {
                    }
                    if want.contains(uid) {
                        let j = choose|j: int|
                            0 <= j < i + 1 && in_range(self.keys()[j], after, before) && (
                            #[trigger] self.sets()[j]).contains(uid);
                        if j < i {
                            assert(old_set.contains(uid));
                        }
                    }
                }
                assert(bitmap_set(acc) =~= want);
            }
            i = i + 1;
        }
        proof {
            let want = Set::new(
                |uid: u32|
                    exists|k: i128|
                        in_range(k, after, before) && (#[trigger] bucket_of(self@, k)).contains(uid),
            );
            assert forall|uid: u32| bitmap_set(acc).contains(uid) == want.contains(uid) by {
                if bitmap_set(acc).contains(uid) {
                    let j = choose|j: int|
                        0 <= j < i && in_range(self.keys()[j], after, before) && (
                        #[trigger] self.sets()[j]).contains(uid);
                    self.lemma_view_at(j);
                    assert(bucket_of(self@, self.keys()[j]).contains(uid));
                }
                if want.contains(uid) {
                    let k = choose|k: i128|
                        in_range(k, after, before) && (#[trigger] bucket_of(self@, k)).contains(uid);
                    self.lemma_view_key(k);
                    let j = self.keys().index_of(k);
                    assert(self.sets()[j].contains(uid));
                }
            }
            assert(bitmap_set(acc) =~= want);
        }
        acc
    }
}

} // verus!
