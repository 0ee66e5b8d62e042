//! The references to the payloads of the tasks.
//!
//! The payloads themselves are blobs that live outside. What is kept here
//! is the set of their identifiers, in increasing order, so that it can be
//! listed in one way only.

use vstd::prelude::*;

verus! {

/// The identifiers of the stored payloads.
pub struct FileStore {
    uuids: Vec<u128>,
}

/// Identifiers in strictly increasing order.
pub open spec fn uuids_ascending(s: Seq<u128>) -> bool {
    forall|i: int, j: int| 0 <= i < j < s.len() ==> s[i] < s[j]
}

impl View for FileStore {
    type V = Seq<u128>;

    closed spec fn view(&self) -> Seq<u128> {
        self.uuids@
    }
}

impl FileStore {
    /// The identifiers stand in strictly increasing order.
    pub closed spec fn wf(&self) -> bool {
        uuids_ascending(self.uuids@)
    }

    /// The identifiers of a well-formed store strictly increase.
    pub proof fn lemma_wf_ascending(&self)
        requires
            self.wf(),
        ensures
            uuids_ascending(self@),
    {
    }

    /// A store without payloads.
    pub fn new() -> (s: Self)
        ensures
            s.wf(),
            s@.len() == 0,
    {
        FileStore { uuids: Vec::new() }
    }

    /// All the identifiers, in increasing order.
    pub fn all_uuids(&self) -> (r: &Vec<u128>)
        ensures
            r@ == self@,
    {
        &self.uuids
    }

    /// Where an identifier stands, or where it would have to go.
    fn position(&self, uuid: u128) -> (r: (usize, bool))
        requires
            self.wf(),
        ensures
            r.0 <= self@.len(),
            forall|j: int| 0 <= j < r.0 ==> self@[j] < uuid,
            forall|j: int| r.0 < j < self@.len() ==> self@[j] > uuid,
            r.1 == self@.contains(uuid),
            r.1 ==> r.0 < self@.len() && self@[r.0 as int] == uuid,
            !r.1 && r.0 < self@.len() ==> self@[r.0 as int] > uuid,
    {
        let mut i: usize = 0;
        while i < self.uuids.len()
            invariant
                self.wf(),
                i <= self.uuids@.len(),
                forall|j: int| 0 <= j < i ==> self.uuids@[j] < uuid,
            decreases self.uuids.len() - i,
        {
            if self.uuids[i] >= uuid {
                return (i, self.uuids[i] == uuid);
            }
            i = i + 1;
        }
        (i, false)
    }

    /// Whether a payload with this identifier is stored.
    pub fn contains(&self, uuid: u128) -> (b: bool)
        requires
            self.wf(),
        ensures
            b == self@.contains(uuid),
    {
        self.position(uuid).1
    }

    /// Records the identifier of a new payload; tells whether it was new.
    pub fn insert(&mut self, uuid: u128) -> (fresh: bool)
        requires
            old(self).wf(),
        ensures
            final(self).wf(),
            fresh == !old(self)@.contains(uuid),
            final(self)@.to_set() == old(self)@.to_set().insert(uuid),
            !fresh ==> final(self)@ == old(self)@,
            fresh ==> final(self)@.len() == old(self)@.len() + 1,
    {
        let (p, found) = self.position(uuid);
        if found {
            assert(self@.to_set().insert(uuid) =~= self@.to_set());
            return false;
        }
        let ghost before = self@;
        self.uuids.insert(p, uuid);
        proof {
            let after = self@;
            assert(after =~= before.insert(p as int, uuid));
            assert forall|x: u128| after.to_set().contains(x) == before.to_set().insert(
                uuid,
            ).contains(x) by {
                if before.contains(x) {
                    let j = choose|j: int| 0 <= j < before.len() && before[j] == x;
                    if j < p {
                        assert(after[j] == x);
                    } else {
                        assert(after[j + 1] == x);
                    }
                }
                if after.contains(x) {
                    let j = choose|j: int| 0 <= j < after.len() && after[j] == x;
                    if j < p {
                        assert(before[j] == x);
                    } else if j > p {
                        assert(before[j - 1] == x);
                    }
                }
                assert(after[p as int] == uuid);
            }
            assert(after.to_set() =~= before.to_set().insert(uuid));
        }
        true
    }

    /// Forgets the identifier of a payload; tells whether it was stored.
    pub fn delete(&mut self, uuid: u128) -> (present: bool)
        requires
            old(self).wf(),
        ensures
            final(self).wf(),
            present == old(self)@.contains(uuid),
            final(self)@.to_set() == old(self)@.to_set().remove(uuid),
            !present ==> final(self)@ == old(self)@,
    {
        let (p, found) = self.position(uuid);
        if !found {
            assert(self@.to_set().remove(uuid) =~= self@.to_set());
            return false;
        }
        let ghost before = self@;
        let _ = self.uuids.remove(p);
        proof {
            let after = self@;
            assert(after =~= before.remove(p as int));
            assert forall|x: u128| after.to_set().contains(x) == before.to_set().remove(
                uuid,
            ).contains(x) by {
                if before.contains(x) && x != uuid {
                    let j = choose|j: int| 0 <= j < before.len() && before[j] == x;
                    if j < p {
                        assert(after[j] == x);
                    } else {
                        assert(after[j - 1] == x);
                    }
                }
                if after.contains(x) {
                    let j = choose|j: int| 0 <= j < after.len() && after[j] == x;
                    if j < p {
                        assert(before[j] == x);
                    } else {
                        assert(before[j + 1] == x);
                    }
                }
            }
            assert(after.to_set() =~= before.to_set().remove(uuid));
        }
        true
    }
}

} // verus!
