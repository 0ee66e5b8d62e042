//! Compressed sets of task identifiers.
//!
//! The sets are `roaring::RoaringBitmap` values. Verus does not look inside
//! them: what a bitmap holds is named by [`bitmap_set`], and every operation
//! that the scheduler uses is given a contract over that name.

use roaring::RoaringBitmap;
use vstd::prelude::*;

verus! {

/// `roaring::RoaringBitmap`: a compressed set of 32-bit integers, into
/// which Verus does not look.
#[verifier::external_type_specification]
#[verifier::external_body]
pub struct ExRoaringBitmap(roaring::RoaringBitmap);

/// The set of integers that a bitmap holds.
pub uninterp spec fn bitmap_set(r: RoaringBitmap) -> Set<u32>;

/// A sequence whose items strictly increase.
pub open spec fn is_ascending(s: Seq<u32>) -> bool {
    forall|i: int, j: int| 0 <= i < j < s.len() ==> s[i] < s[j]
}

/// `RoaringBitmap::new`: the new bitmap holds nothing.
pub assume_specification[ RoaringBitmap::new ]() -> (r: RoaringBitmap)
    ensures
        bitmap_set(r) == Set::<u32>::empty(),
;

/// `RoaringBitmap::insert`: the value joins the set; the result tells
/// whether it was absent before.
pub assume_specification[ RoaringBitmap::insert ](r: &mut RoaringBitmap, value: u32) -> (absent: bool)
    ensures
        bitmap_set(*final(r)) == bitmap_set(*old(r)).insert(value),
        absent == !bitmap_set(*old(r)).contains(value),
;

/// `RoaringBitmap::remove`: the value leaves the set; the result tells
/// whether it was present before.
pub assume_specification[ RoaringBitmap::remove ](r: &mut RoaringBitmap, value: u32) -> (present: bool)
    ensures
        bitmap_set(*final(r)) == bitmap_set(*old(r)).remove(value),
        present == bitmap_set(*old(r)).contains(value),
;

/// `RoaringBitmap::contains`: membership in the set.
pub assume_specification[ RoaringBitmap::contains ](r: &RoaringBitmap, value: u32) -> (b: bool)
    ensures
        b == bitmap_set(*r).contains(value),
;

/// `RoaringBitmap::is_empty`: whether the set holds nothing.
pub assume_specification[ RoaringBitmap::is_empty ](r: &RoaringBitmap) -> (b: bool)
    ensures
        b == (bitmap_set(*r) == Set::<u32>::empty()),
;

/// `Clone::clone` of a bitmap: the copy holds the same integers.
pub assume_specification[ <RoaringBitmap as Clone>::clone ](r: &RoaringBitmap) -> (c:
    RoaringBitmap)
    ensures
        bitmap_set(c) == bitmap_set(*r),
;

/// `&a | &b` on bitmaps: the union of the two sets.
#[verifier::external_body]
pub(crate) fn bitmap_union(a: &RoaringBitmap, b: &RoaringBitmap) -> (r: RoaringBitmap)
    ensures
        bitmap_set(r) == bitmap_set(*a).union(bitmap_set(*b)),
{
    a | b
}

/// `&a & &b` on bitmaps: the intersection of the two sets.
#[verifier::external_body]
pub(crate) fn bitmap_intersection(a: &RoaringBitmap, b: &RoaringBitmap) -> (r: RoaringBitmap)
    ensures
        bitmap_set(r) == bitmap_set(*a).intersect(bitmap_set(*b)),
{
    a & b
}

/// `RoaringBitmap::iter`, collected: every integer of the set once, in
/// increasing order.
#[verifier::external_body]
pub(crate) fn bitmap_to_vec(r: &RoaringBitmap) -> (v: Vec<u32>)
    ensures
        is_ascending(v@),
        v@.to_set() == bitmap_set(*r),
{
    r.iter().collect()
}

/// Every set of 32-bit integers is finite.
pub proof fn lemma_u32_set_finite(s: Set<u32>)
    ensures
        s.finite(),
{
    broadcast use vstd::set_lib::full_set_properties;
    assert(Set::<u32>::full().finite());
    vstd::set_lib::lemma_set_subset_finite(Set::<u32>::full(), s);
}

/// Each item of an increasing sequence is at least its position, so that
/// the sequence is no longer than there are 32-bit integers.
pub proof fn lemma_ascending_len(s: Seq<u32>, i: int)
    requires
        is_ascending(s),
        0 <= i < s.len(),
    ensures
        s[i] >= i,
        s.no_duplicates(),
    decreases i,
{
    if i > 0 {
        lemma_ascending_len(s, i - 1);
        assert(s[i - 1] < s[i]);
    }
    assert forall|a: int, b: int| 0 <= a < s.len() && 0 <= b < s.len() && a != b implies s[a]
        != s[b] by {
        if a < b {
            assert(s[a] < s[b]);
        } else {
            assert(s[b] < s[a]);
        }
    }
}

/// The members of a set in increasing order.
pub open spec fn ascending_seq(s: Set<u32>) -> Seq<u32> {
    choose|q: Seq<u32>| is_ascending(q) && q.to_set() == s
}

/// Two increasing sequences with the same members are the same sequence.
pub proof fn lemma_ascending_unique(a: Seq<u32>, b: Seq<u32>)
    requires
        is_ascending(a),
        is_ascending(b),
        a.to_set() == b.to_set(),
    ensures
        a == b,
    decreases a.len(),
{
    if a.len() == 0 {
        if b.len() > 0 {
            assert(b.contains(b[0]));
            assert(b.to_set().contains(b[0]));
            assert(a.contains(b[0]));
        }
        assert(a =~= b);
    } else if b.len() == 0 {
        assert(a.contains(a[0]));
        assert(a.to_set().contains(a[0]));
        assert(b.contains(a[0]));
    } else {
        let x = a.last();
        let y = b.last();
        assert(a.contains(x));
        assert(a.to_set().contains(x));
        assert(b.contains(x));
        assert(b.contains(y));
        assert(b.to_set().contains(y));
        assert(a.contains(y));
        assert(x == y);
        let ra = a.drop_last();
        let rb = b.drop_last();
        assert forall|z: u32| ra.to_set().contains(z) == rb.to_set().contains(z) by {
            if ra.contains(z) {
                let i = choose|i: int| 0 <= i < ra.len() && ra[i] == z;
                assert(a[i] == z);
                assert(a.contains(z));
                assert(a.to_set().contains(z));
                assert(b.contains(z));
                let j = choose|j: int| 0 <= j < b.len() && b[j] == z;
                assert(rb[j] == z);
            }
            if rb.contains(z) {
                let i = choose|i: int| 0 <= i < rb.len() && rb[i] == z;
                assert(b[i] == z);
                assert(b.contains(z));
                assert(b.to_set().contains(z));
                assert(a.contains(z));
                let j = choose|j: int| 0 <= j < a.len() && a[j] == z;
                assert(ra[j] == z);
            }
        }
        assert(ra.to_set() =~= rb.to_set());
        lemma_ascending_unique(ra, rb);
        assert(a =~= ra.push(x));
        assert(b =~= rb.push(y));
    }
}

/// Every set of 32-bit integers has its members in increasing order.
pub proof fn lemma_ascending_exists(s: Set<u32>)
    ensures
        is_ascending(ascending_seq(s)),
        ascending_seq(s).to_set() == s,
    decreases s.len(),
{
    lemma_u32_set_finite(s);
    if s.len() == 0 {
        let q = Seq::<u32>::empty();
        assert(s =~= Set::<u32>::empty());
        assert(q.to_set() =~= s);
        assert(is_ascending(q) && q.to_set() == s);
    } else {
        let leq = |a: u32, b: u32| a <= b;
        let m = s.find_unique_maximal(leq);
        s.find_unique_maximal_ensures(leq);
        assert(s.contains(m));
        assert forall|x: u32| s.contains(x) implies x <= m by {
            if x > m {
                assert(leq(m, x));
                assert(leq(x, m));
            }
        }
        let rest = s.remove(m);
        lemma_ascending_exists(rest);
        let r = ascending_seq(rest);
        let q = r.push(m);
        assert forall|i: int, j: int| 0 <= i < j < q.len() implies q[i] < q[j] by {
            if j == r.len() {
                assert(r.contains(r[i]));
                assert(r.to_set().contains(r[i]));
                assert(rest.contains(r[i]));
            }
        }
        assert forall|x: u32| q.to_set().contains(x) == s.contains(x) by {
            if q.contains(x) {
                let i = choose|i: int| 0 <= i < q.len() && q[i] == x;
                if i < r.len() {
                    assert(r.contains(r[i]));
                    assert(r.to_set().contains(x));
                }
            }
            if s.contains(x) {
                if x == m {
                    assert(q[r.len() as int] == m);
                } else {
                    assert(rest.contains(x));
                    assert(r.to_set().contains(x));
                    assert(r.contains(x));
                    let i = choose|i: int| 0 <= i < r.len() && r[i] == x;
                    assert(q[i] == x);
                }
            }
        }
        assert(q.to_set() =~= s);
        assert(is_ascending(q) && q.to_set() == s);
    }
}

/// The integers of a bitmap in increasing order.
pub fn bitmap_members(r: &RoaringBitmap) -> (v: Vec<u32>)
    ensures
        v@ == ascending_seq(bitmap_set(*r)),
        is_ascending(v@),
        v@.to_set() == bitmap_set(*r),
{
    let v = bitmap_to_vec(r);
    proof {
        let q = ascending_seq(bitmap_set(*r));
        assert(is_ascending(q) && q.to_set() == bitmap_set(*r));
        lemma_ascending_unique(v@, q);
    }
    v
}

} // verus!
