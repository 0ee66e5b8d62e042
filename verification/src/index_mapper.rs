//! The index mapper: the registry of the indexes by name, with the
//! statistics of each and the bounded set of the indexes whose storage is
//! open.
//!
//! The storage itself lives outside: this registry decides which names
//! exist, which handles are open and which one has to be closed when one
//! more is opened.

use crate::store::Error;
use crate::table::TableKey;
use crate::text::{text_lt, text_order, text_owned};
use vstd::prelude::*;

verus! {

/// What is known of the contents of an index: the number of its
/// documents, and how many documents have each field. The fields stand in
/// the strictly increasing order of their names, so that no field is
/// counted twice; [`IndexStats::new`] and [`IndexStats::set_field`] build
/// the statistics and keep that order.
#[derive(Debug)]
pub struct IndexStats {
    number_of_documents: u64,
    field_distribution: Vec<(String, u64)>,
}

/// One registered index.
#[derive(Debug)]
pub struct IndexEntry {
    pub name: String,
    pub stats: IndexStats,
}

/// The statistics of an index as mathematical values.
pub struct IndexStatsView {
    pub number_of_documents: u64,
    pub field_distribution: Seq<(Seq<char>, u64)>,
}

/// One registered index as mathematical values.
pub struct IndexEntryView {
    pub name: Seq<char>,
    pub stats: IndexStatsView,
}

impl View for IndexStats {
    type V = IndexStatsView;

    closed spec fn view(&self) -> IndexStatsView {
        IndexStatsView {
            number_of_documents: self.number_of_documents,
            field_distribution: Seq::new(
                self.field_distribution@.len(),
                |i: int| (self.field_distribution@[i].0@, self.field_distribution@[i].1),
            ),
        }
    }
}

impl View for IndexEntry {
    type V = IndexEntryView;

    open spec fn view(&self) -> IndexEntryView {
        IndexEntryView { name: self.name@, stats: self.stats@ }
    }
}

/// The names of the fields of a distribution.
pub open spec fn field_names(fields: Seq<(Seq<char>, u64)>) -> Seq<Seq<char>> {
    Seq::new(fields.len(), |i: int| fields[i].0)
}

/// The fields of a distribution stand in the strictly increasing order of
/// their names, so that no field is counted twice.
pub open spec fn fields_ascending(fields: Seq<(Seq<char>, u64)>) -> bool {
    names_ascending(field_names(fields))
}

/// A distribution after the count of a field has been set: the count of a
/// field that is there is replaced, and a new field goes to its place in
/// the order of the names.
pub open spec fn with_field(fields: Seq<(Seq<char>, u64)>, name: Seq<char>, count: u64) -> Seq<
    (Seq<char>, u64),
> {
    let names = field_names(fields);
    if names.contains(name) {
        fields.update(names.index_of(name), (name, count))
    } else {
        fields.insert(rank_of(names, name), (name, count))
    }
}

impl IndexStats {
    /// The fields stand in the strictly increasing order of their names.
    pub open spec fn wf(&self) -> bool {
        fields_ascending(self@.field_distribution)
    }

    /// The statistics of an index with this many documents and no field.
    pub fn new(number_of_documents: u64) -> (s: Self)
        ensures
            s.wf(),
            s@ == (IndexStatsView { number_of_documents, field_distribution: Seq::empty() }),
    {
        let s = IndexStats { number_of_documents, field_distribution: Vec::new() };
        assert(s@.field_distribution =~= Seq::<(Seq<char>, u64)>::empty());
        s
    }

    /// The number of documents.
    pub fn number_of_documents(&self) -> (n: u64)
        ensures
            n == self@.number_of_documents,
    {
        self.number_of_documents
    }

    /// How many documents have each field, in the order of the names of
    /// the fields.
    pub fn fields(&self) -> (fields: &Vec<(String, u64)>)
        ensures
            fields@.len() == self@.field_distribution.len(),
            forall|i: int|
                0 <= i < fields@.len() ==> (#[trigger] fields@[i]).0@
                    == self@.field_distribution[i].0 && fields@[i].1
                    == self@.field_distribution[i].1,
    {
        &self.field_distribution
    }

    /// Where the field of `name` stands, or where it would have to go.
    fn field_position(&self, name: &str) -> (r: (usize, bool))
        requires
            self.wf(),
        ensures
            r.0 <= self@.field_distribution.len(),
            r.0 == rank_of(field_names(self@.field_distribution), name@),
            r.1 == field_names(self@.field_distribution).contains(name@),
            r.1 ==> r.0 < self@.field_distribution.len() && field_names(
                self@.field_distribution,
            ).index_of(name@) == r.0,
    {
        let ghost names = field_names(self@.field_distribution);
        let mut i: usize = 0;
        while i < self.field_distribution.len()
            invariant
                self.wf(),
                names == field_names(self@.field_distribution),
                i <= self.field_distribution@.len(),
                forall|j: int| 0 <= j < i ==> text_lt(#[trigger] names[j], name@),
            decreases self.field_distribution.len() - i,
        {
            let o = text_order(self.field_distribution[i].0.as_str(), name);
            if o != -1 {
                proof {
                    assert(names[i as int] == self.field_distribution@[i as int].0@);
                    lemma_rank(names, name@, i as int);
                    String::lemma_key_order(name@, names[i as int], name@);
                    if o == 0 {
                        assert(names.contains(name@));
                        let k = names.index_of(name@);
                        if k < i {
                            assert(text_lt(names[k], name@));
                        } else if k > i {
                            assert(text_lt(names[i as int], names[k]));
                        }
                    } else {
                        assert forall|j: int| 0 <= j < names.len() implies names[j] != name@ by {
                            String::lemma_key_order(name@, names[i as int], names[j]);
                            if j > i {
                                assert(text_lt(names[i as int], names[j]));
                            } else if j < i {
                                assert(text_lt(names[j], name@));
                            }
                        }
                    }
                }
                return (i, o == 0);
            }
            i = i + 1;
        }
        proof {
            lemma_rank(names, name@, i as int);
            assert forall|j: int| 0 <= j < names.len() implies names[j] != name@ by {
                String::lemma_key_order(name@, name@, name@);
                assert(text_lt(names[j], name@));
            }
        }
        (i, false)
    }

    /// Sets the count of a field.
    pub fn set_field(&mut self, name: String, count: u64)
        requires
            old(self).wf(),
        ensures
            final(self).wf(),
            final(self)@.number_of_documents == old(self)@.number_of_documents,
            final(self)@.field_distribution == with_field(
                old(self)@.field_distribution,
                name@,
                count,
            ),
    {
        let (p, found) = self.field_position(name.as_str());
        let ghost before = self@.field_distribution;
        let ghost names = field_names(before);
        if found {
            self.field_distribution[p] = (name, count);
            proof {
                let after = self@.field_distribution;
                assert(after =~= before.update(p as int, (name@, count)));
                assert(names[p as int] == name@);
                assert(field_names(after) =~= names);
            }
        } else {
            self.field_distribution.insert(p, (name, count));
            proof {
                let after = self@.field_distribution;
                let next = field_names(after);
                assert(after =~= before.insert(p as int, (name@, count)));
                assert(next =~= names.insert(p as int, name@));
                assert forall|j: int| 0 <= j < p implies text_lt(#[trigger] names[j], name@) by {
                    lemma_rank_bounds(names, name@, j);
                }
                if p < names.len() {
                    lemma_rank_stop(names, name@);
                    String::lemma_key_order(name@, names[p as int], name@);
                    assert(names.contains(names[p as int]));
                    assert(text_lt(name@, names[p as int]));
                }
                assert forall|a: int, b: int| 0 <= a < b < next.len() implies text_lt(
                    #[trigger] next[a],
                    #[trigger] next[b],
                ) by {
                    if b < p {
                        assert(text_lt(names[a], names[b]));
                    } else if b == p {
                        assert(text_lt(names[a], name@));
                    } else if a < p {
                        assert(text_lt(names[a], names[b - 1]));
                    } else if a == p {
                        if b - 1 > p {
                            assert(text_lt(names[p as int], names[b - 1]));
                            String::lemma_key_order(name@, names[p as int], names[b - 1]);
                        }
                    } else {
                        assert(text_lt(names[a - 1], names[b - 1]));
                    }
                }
            }
        }
    }
}

/// The statistics of an index without documents.
pub open spec fn empty_stats() -> IndexStatsView {
    IndexStatsView { number_of_documents: 0, field_distribution: Seq::empty() }
}

/// The registry.
pub struct IndexMapper {
    entries: Vec<IndexEntry>,
    /// The names of the open indexes, the least recently used first.
    open: Vec<String>,
    capacity: usize,
}

/// What an index mapper holds.
pub struct IndexMapperView {
    /// The registered indexes in the order of their names.
    pub entries: Seq<IndexEntryView>,
    /// The names of the open indexes, the least recently used first.
    pub open: Seq<Seq<char>>,
    /// How many indexes can be open at once.
    pub capacity: nat,
}

/// The names of a list of entries.
pub open spec fn names_of(entries: Seq<IndexEntryView>) -> Seq<Seq<char>> {
    Seq::new(entries.len(), |i: int| entries[i].name)
}

/// The names of a list of strings.
pub open spec fn texts_of(names: Seq<String>) -> Seq<Seq<char>> {
    Seq::new(names.len(), |i: int| names[i]@)
}

/// Where a name stands, or would have to stand, among names in increasing
/// order: behind all the names that come before it.
pub open spec fn rank_of(names: Seq<Seq<char>>, name: Seq<char>) -> int
    decreases names.len(),
{
    if names.len() == 0 || !text_lt(names[0], name) {
        0
    } else {
        1 + rank_of(names.drop_first(), name)
    }
}

/// A list without its items equal to `name`.
pub open spec fn without(names: Seq<Seq<char>>, name: Seq<char>) -> Seq<Seq<char>> {
    names.filter(|n: Seq<char>| n != name)
}

/// Strictly increasing names.
pub open spec fn names_ascending(names: Seq<Seq<char>>) -> bool {
    forall|i: int, j: int| 0 <= i < j < names.len() ==> text_lt(#[trigger] names[i], #[trigger] names[j])
}

impl IndexMapperView {
    /// Whether an index of this name is registered.
    pub open spec fn contains(self, name: Seq<char>) -> bool {
        names_of(self.entries).contains(name)
    }

    /// The position of the index of this name.
    pub open spec fn index_of(self, name: Seq<char>) -> int {
        names_of(self.entries).index_of(name)
    }

    /// The names stand in strictly increasing order, and so do the names
    /// of the fields of each index; the open indexes are registered ones,
    /// none is listed twice, and they are no more than the capacity, which
    /// is at least one.
    pub open spec fn inv(self) -> bool {
        &&& names_ascending(names_of(self.entries))
        &&& forall|i: int|
            0 <= i < self.entries.len() ==> fields_ascending(
                (#[trigger] self.entries[i]).stats.field_distribution,
            )
        &&& self.capacity >= 1
        &&& self.open.len() <= self.capacity
        &&& self.open.no_duplicates()
        &&& forall|i: int| 0 <= i < self.open.len() ==> self.contains(#[trigger] self.open[i])
    }

    /// The open indexes after the index `name` has been used: it is the
    /// most recently used one, and the least recently used one has been
    /// closed if there was no room left.
    pub open spec fn open_after_use(self, name: Seq<char>) -> Seq<Seq<char>> {
        let rest = without(self.open, name);
        if rest.len() >= self.capacity {
            rest.drop_first().push(name)
        } else {
            rest.push(name)
        }
    }

    /// The index that is closed when the index `name` is used.
    pub open spec fn evicted_by_use(self, name: Seq<char>) -> Option<Seq<char>> {
        let rest = without(self.open, name);
        if rest.len() >= self.capacity {
            Some(rest[0])
        } else {
            None
        }
    }
}

/// In increasing names the rank of a name is the place of the first name
/// that does not come before it.
pub proof fn lemma_rank(names: Seq<Seq<char>>, name: Seq<char>, p: int)
    requires
        names_ascending(names),
        0 <= p <= names.len(),
        forall|j: int| 0 <= j < p ==> text_lt(#[trigger] names[j], name),
        p < names.len() ==> !text_lt(names[p], name),
    ensures
        rank_of(names, name) == p,
    decreases names.len(),
{
    if names.len() > 0 && p > 0 {
        let rest = names.drop_first();
        assert forall|i: int, j: int| 0 <= i < j < rest.len() implies text_lt(
            #[trigger] rest[i],
            #[trigger] rest[j],
        ) by {
            assert(text_lt(names[i + 1], names[j + 1]));
        }
        assert forall|j: int| 0 <= j < p - 1 implies text_lt(#[trigger] rest[j], name) by {
            assert(text_lt(names[j + 1], name));
        }
        assert(text_lt(names[0], name));
        lemma_rank(rest, name, p - 1);
    }
}

/// A list without a name does not hold it, holds every other name that the
/// list held, keeps the order, and has no duplicates if the list had none.
pub proof fn lemma_without(names: Seq<Seq<char>>, name: Seq<char>)
    ensures
        !without(names, name).contains(name),
        without(names, name).len() <= names.len(),
        forall|n: Seq<char>| n != name ==> (without(names, name).contains(n) <==> names.contains(n)),
        names.no_duplicates() ==> without(names, name).no_duplicates(),
        !names.contains(name) ==> without(names, name) == names,
    decreases names.len(),
{
    reveal(Seq::filter);
    let keep = |n: Seq<char>| n != name;
    if names.len() > 0 {
        let rest = names.drop_last();
        let last = names.last();
        lemma_without(rest, name);
        let fr = without(rest, name);
        let f = without(names, name);
        assert(f == if keep(last) { fr.push(last) } else { fr });
        assert forall|n: Seq<char>| n != name implies (f.contains(n) <==> names.contains(n)) by {
            if names.contains(n) {
                let j = choose|j: int| 0 <= j < names.len() && names[j] == n;
                if j < rest.len() {
                    assert(rest[j] == n);
                    assert(fr.contains(n));
                    let k = choose|k: int| 0 <= k < fr.len() && fr[k] == n;
                    assert(f[k] == n);
                } else {
                    assert(f[f.len() - 1] == n);
                }
            }
            if f.contains(n) {
                let k = choose|k: int| 0 <= k < f.len() && f[k] == n;
                if k < fr.len() {
                    assert(fr[k] == n);
                    assert(fr.contains(n));
                    assert(rest.contains(n));
                    let j = choose|j: int| 0 <= j < rest.len() && rest[j] == n;
                    assert(names[j] == n);
                } else {
                    assert(names[names.len() - 1] == n);
                }
            }
        }
        if f.contains(name) {
            let k = choose|k: int| 0 <= k < f.len() && f[k] == name;
            if k < fr.len() {
                assert(fr[k] == name);
                assert(fr.contains(name));
            }
        }
        if names.no_duplicates() {
            assert(rest.no_duplicates());
            if keep(last) {
                assert forall|a: int, b: int| 0 <= a < f.len() && 0 <= b < f.len() && a
                    != b implies f[a] != f[b] by {
                    if a == fr.len() || b == fr.len() {
                        let o = if a == fr.len() { b } else { a };
                        assert(fr.contains(fr[o]));
                        assert(rest.contains(fr[o]));
                        let j = choose|j: int| 0 <= j < rest.len() && rest[j] == fr[o];
                        assert(names[j] != names[names.len() - 1]);
                    }
                }
            }
        }
        if !names.contains(name) {
            assert(!rest.contains(name)) by {
                if rest.contains(name) {
                    let j = choose|j: int| 0 <= j < rest.len() && rest[j] == name;
                    assert(names[j] == name);
                }
            }
            assert(names[names.len() - 1] == last);
            assert(f =~= names);
        }
    } else {
        assert(without(names, name) =~= names);
    }
}

impl View for IndexMapper {
    type V = IndexMapperView;

    closed spec fn view(&self) -> IndexMapperView {
        IndexMapperView {
            entries: Seq::new(self.entries@.len(), |i: int| self.entries@[i]@),
            open: texts_of(self.open@),
            capacity: self.capacity as nat,
        }
    }
}

impl IndexMapper {
    /// The invariant of the registry.
    pub closed spec fn wf(&self) -> bool {
        self@.inv()
    }

    /// What holds of a well-formed registry.
    pub proof fn lemma_wf_inv(&self)
        requires
            self.wf(),
        ensures
            self@.inv(),
    {
    }

    /// A registry without indexes, in which `capacity` indexes can be open
    /// at once, and at least one.
    pub fn new(capacity: usize) -> (m: Self)
        ensures
            m.wf(),
            m@.entries.len() == 0,
            m@.open.len() == 0,
            m@.capacity == (if capacity == 0 {
                1
            } else {
                capacity as int
            }),
    {
        let m = IndexMapper {
            entries: Vec::new(),
            open: Vec::new(),
            capacity: if capacity == 0 {
                1
            } else {
                capacity
            },
        };
        assert(m@.open =~= Seq::<Seq<char>>::empty());
        m
    }

    /// The number of registered indexes.
    pub fn len(&self) -> (n: usize)
        ensures
            n == self@.entries.len(),
    {
        self.entries.len()
    }

    /// The entry at a position, in the order of the names.
    pub fn entry_at(&self, i: usize) -> (e: &IndexEntry)
        requires
            i < self@.entries.len(),
        ensures
            e@ == self@.entries[i as int],
    {
        &self.entries[i]
    }

    /// How many indexes are open.
    pub fn open_count(&self) -> (n: usize)
        ensures
            n == self@.open.len(),
    {
        proof {
            assert(texts_of(self.open@).len() == self.open@.len());
        }
        self.open.len()
    }

    /// Where the entry of `name` stands, or where it would have to go.
    fn position(&self, name: &str) -> (r: (usize, bool))
        requires
            self.wf(),
        ensures
            r.0 <= self@.entries.len(),
            r.0 == rank_of(names_of(self@.entries), name@),
            r.1 == self@.contains(name@),
            r.1 ==> r.0 < self@.entries.len() && self@.entries[r.0 as int].name == name@
                && self@.index_of(name@) == r.0,
    {
        let ghost names = names_of(self@.entries);
        let mut i: usize = 0;
        while i < self.entries.len()
            invariant
                self.wf(),
                names == names_of(self@.entries),
                i <= self.entries@.len(),
                forall|j: int| 0 <= j < i ==> text_lt(#[trigger] names[j], name@),
            decreases self.entries.len() - i,
        {
            let o = text_order(self.entries[i].name.as_str(), name);
            if o != -1 {
                proof {
                    assert(names[i as int] == self.entries@[i as int].name@ && self@.entries[i as int] == self.entries@[i as int]@);
                    lemma_rank(names, name@, i as int);
                    String::lemma_key_order(name@, names[i as int], name@);
                    if o == 0 {
                        assert(names.contains(name@));
                        let k = names.index_of(name@);
                        if k < i {
                            assert(text_lt(names[k], name@));
                        } else if k > i {
                            assert(text_lt(names[i as int], names[k]));
                        }
                    } else {
                        assert forall|j: int| 0 <= j < names.len() implies names[j] != name@ by {
                            String::lemma_key_order(name@, names[i as int], names[j]);
                            if j > i {
                                assert(text_lt(names[i as int], names[j]));
                            } else if j < i {
                                assert(text_lt(names[j], name@));
                            }
                        }
                    }
                }
                return (i, o == 0);
            }
            i = i + 1;
        }
        proof {
            lemma_rank(names, name@, i as int);
            assert forall|j: int| 0 <= j < names.len() implies names[j] != name@ by {
                String::lemma_key_order(name@, name@, name@);
                assert(text_lt(names[j], name@));
            }
        }
        (i, false)
    }

    /// Whether an index of this name is registered.
    pub fn contains(&self, name: &str) -> (b: bool)
        requires
            self.wf(),
        ensures
            b == self@.contains(name@),
    {
        self.position(name).1
    }

    /// Registers a new index, with no documents. It goes to its place in
    /// the order of the names, and no handle is opened.
    pub fn create(&mut self, name: String) -> (r: Result<(), Error>)
        requires
            old(self).wf(),
        ensures
            final(self).wf(),
            match r {
                Ok(()) => {
                    &&& !old(self)@.contains(name@)
                    &&& final(self)@.entries == old(self)@.entries.insert(
                        rank_of(names_of(old(self)@.entries), name@),
                        IndexEntryView { name: name@, stats: empty_stats() },
                    )
                    &&& final(self)@.open == old(self)@.open
                    &&& final(self)@.capacity == old(self)@.capacity
                },
                Err(e) => {
                    &&& old(self)@.contains(name@)
                    &&& final(self)@ == old(self)@
                    &&& e is IndexAlreadyExists
                    &&& e->IndexAlreadyExists_0@ == name@
                },
            },
    {
        let (p, found) = self.position(name.as_str());
        if found {
            return Err(Error::IndexAlreadyExists(name));
        }
        let ghost before = self@;
        let ghost names = names_of(before.entries);
        let entry = IndexEntry {
            name,
            stats: IndexStats::new(0),
        };
        self.entries.insert(p, entry);
        proof {
            let after = self@;
            let next = names_of(after.entries);
            assert(entry@.stats.field_distribution =~= Seq::<(Seq<char>, u64)>::empty());
            assert(after.entries =~= before.entries.insert(
                p as int,
                IndexEntryView { name: name@, stats: empty_stats() },
            ));
            assert(next =~= names.insert(p as int, name@));
            assert forall|j: int| 0 <= j < p implies text_lt(#[trigger] names[j], name@) by {
                lemma_rank_bounds(names, name@, j);
            }
            if p < names.len() {
                lemma_rank_stop(names, name@);
                String::lemma_key_order(name@, names[p as int], name@);
                assert(text_lt(name@, names[p as int]));
            }
            assert forall|a: int, b: int| 0 <= a < b < next.len() implies text_lt(
                #[trigger] next[a],
                #[trigger] next[b],
            ) by {
                if b < p {
                    assert(text_lt(names[a], names[b]));
                } else if b == p {
                    assert(text_lt(names[a], name@));
                } else if a < p {
                    assert(text_lt(names[a], names[b - 1]));
                } else if a == p {
                    if b - 1 > p {
                        assert(text_lt(names[p as int], names[b - 1]));
                        String::lemma_key_order(name@, names[p as int], names[b - 1]);
                    }
                } else {
                    assert(text_lt(names[a - 1], names[b - 1]));
                }
            }
            assert forall|i: int| 0 <= i < after.open.len() implies after.contains(
                #[trigger] after.open[i],
            ) by {
                assert(before.contains(before.open[i]));
                let j = choose|j: int| 0 <= j < names.len() && names[j] == before.open[i];
                if j < p {
                    assert(next[j] == names[j]);
                } else {
                    assert(next[j + 1] == names[j]);
                }
            }
        }
        Ok(())
    }

    /// The open names without `name`, in the same order.
    fn open_without(&self, name: &str) -> (kept: Vec<String>)
        ensures
            texts_of(kept@) == without(self@.open, name@),
    {
        let mut kept: Vec<String> = Vec::new();
        let mut i: usize = 0;
        let ghost all = texts_of(self.open@);
        proof {
            reveal(Seq::filter);
            assert(all.take(0) =~= Seq::<Seq<char>>::empty());
            assert(texts_of(kept@) =~= without(all.take(0), name@));
        }
        while i < self.open.len()
            invariant
                i <= self.open@.len(),
                all == texts_of(self.open@),
                texts_of(kept@) == without(all.take(i as int), name@),
            decreases self.open.len() - i,
        {
            proof {
                reveal(Seq::filter);
                assert(all.take(i + 1).drop_last() =~= all.take(i as int));
                assert(all.take(i + 1).last() == self.open@[i as int]@);
            }
            let ghost before = texts_of(kept@);
            if text_order(self.open[i].as_str(), name) != 0 {
                kept.push(self.open[i].clone());
                proof {
                    assert(texts_of(kept@) =~= before.push(self.open@[i as int]@));
                }
            }
            i = i + 1;
        }
        proof {
            assert(all.take(all.len() as int) =~= all);
        }
        kept
    }

    /// Whether the storage of an index is open.
    pub fn is_open(&self, name: &str) -> (b: bool)
        ensures
            b == self@.open.contains(name@),
    {
        let mut i: usize = 0;
        let ghost all = texts_of(self.open@);
        while i < self.open.len()
            invariant
                i <= self.open@.len(),
                all == texts_of(self.open@),
                forall|j: int| 0 <= j < i ==> all[j] != name@,
            decreases self.open.len() - i,
        {
            if text_order(self.open[i].as_str(), name) == 0 {
                assert(all[i as int] == name@);
                return true;
            }
            i = i + 1;
        }
        false
    }

    /// Takes an index out of the registry, and closes it if it was open.
    pub fn delete(&mut self, name: &str) -> (r: Result<(), Error>)
        requires
            old(self).wf(),
        ensures
            final(self).wf(),
            match r {
                Ok(()) => {
                    &&& old(self)@.contains(name@)
                    &&& final(self)@.entries == old(self)@.entries.remove(
                        old(self)@.index_of(name@),
                    )
                    &&& final(self)@.open == without(old(self)@.open, name@)
                    &&& final(self)@.capacity == old(self)@.capacity
                },
                Err(e) => {
                    &&& !old(self)@.contains(name@)
                    &&& final(self)@ == old(self)@
                    &&& e is IndexNotFound
                    &&& e->IndexNotFound_0@ == name@
                },
            },
    {
        let (p, found) = self.position(name);
        if !found {
            return Err(Error::IndexNotFound(text_owned(name)));
        }
        let ghost before = self@;
        let ghost names = names_of(before.entries);
        let kept = self.open_without(name);
        let _ = self.entries.remove(p);
        self.open = kept;
        proof {
            let after = self@;
            let next = names_of(after.entries);
            assert(after.entries =~= before.entries.remove(p as int));
            assert(next =~= names.remove(p as int));
            lemma_without(before.open, name@);
            assert forall|a: int, b: int| 0 <= a < b < next.len() implies text_lt(
                #[trigger] next[a],
                #[trigger] next[b],
            ) by {
                let a0 = if a < p { a } else { a + 1 };
                let b0 = if b < p { b } else { b + 1 };
                assert(text_lt(names[a0], names[b0]));
            }
            assert forall|i: int| 0 <= i < after.open.len() implies after.contains(
                #[trigger] after.open[i],
            ) by {
                let n = after.open[i];
                assert(after.open.contains(n));
                assert(before.open.contains(n));
                let k = choose|k: int| 0 <= k < before.open.len() && before.open[k] == n;
                assert(before.contains(before.open[k]));
                let j = choose|j: int| 0 <= j < names.len() && names[j] == n;
                if j < p {
                    assert(next[j] == n);
                } else {
                    assert(next[j - 1] == n);
                }
            }
        }
        Ok(())
    }

    /// Makes the storage of an index available: the index becomes the most
    /// recently used one of the open indexes. Where no room is left for it
    /// the least recently used index is closed, and its name is the result;
    /// a closed index is opened again when it is next resolved.
    pub fn resolve(&mut self, name: &str) -> (r: Result<Option<String>, Error>)
        requires
            old(self).wf(),
        ensures
            final(self).wf(),
            match r {
                Ok(evicted) => {
                    &&& old(self)@.contains(name@)
                    &&& final(self)@.entries == old(self)@.entries
                    &&& final(self)@.capacity == old(self)@.capacity
                    &&& final(self)@.open == old(self)@.open_after_use(name@)
                    &&& final(self)@.open.last() == name@
                    &&& match evicted {
                        Some(n) => old(self)@.evicted_by_use(name@) == Some(n@),
                        None => old(self)@.evicted_by_use(name@) is None,
                    }
                },
                Err(e) => {
                    &&& !old(self)@.contains(name@)
                    &&& final(self)@ == old(self)@
                    &&& e is IndexNotFound
                    &&& e->IndexNotFound_0@ == name@
                },
            },
    {
        let (p, found) = self.position(name);
        if !found {
            return Err(Error::IndexNotFound(text_owned(name)));
        }
        let ghost before = self@;
        let mut kept = self.open_without(name);
        let ghost rest = texts_of(kept@);
        proof {
            lemma_without(before.open, name@);
        }
        let evicted = if kept.len() >= self.capacity {
            let first = kept.remove(0);
            proof {
                assert(texts_of(kept@) =~= rest.drop_first());
            }
            Some(first)
        } else {
            None
        };
        let ghost mid = texts_of(kept@);
        kept.push(text_owned(name));
        self.open = kept;
        proof {
            let after = self@;
            assert(after.open =~= mid.push(name@));
            assert(after.open =~= before.open_after_use(name@));
            assert forall|i: int| 0 <= i < mid.len() implies rest.contains(#[trigger] mid[i]) by {
                if evicted is Some {
                    assert(rest[i + 1] == mid[i]);
                } else {
                    assert(rest[i] == mid[i]);
                }
            }
            assert(mid.no_duplicates()) by {
                assert forall|a: int, b: int| 0 <= a < mid.len() && 0 <= b < mid.len() && a
                    != b implies mid[a] != mid[b] by {
                    if evicted is Some {
                        assert(rest[a + 1] != rest[b + 1]);
                    } else {
                        assert(rest[a] != rest[b]);
                    }
                }
            }
            assert forall|a: int, b: int| 0 <= a < after.open.len() && 0 <= b < after.open.len()
                && a != b implies after.open[a] != after.open[b] by {
                if a < mid.len() {
                    assert(rest.contains(mid[a]));
                }
                if b < mid.len() {
                    assert(rest.contains(mid[b]));
                }
            }
            assert forall|i: int| 0 <= i < after.open.len() implies after.contains(
                #[trigger] after.open[i],
            ) by {
                if i < mid.len() {
                    assert(rest.contains(mid[i]));
                    assert(before.open.contains(mid[i]));
                    let k = choose|k: int| 0 <= k < before.open.len() && before.open[k] == mid[i];
                    assert(before.contains(before.open[k]));
                }
            }
        }
        Ok(evicted)
    }

    /// Makes the storage of an index available, and first registers the
    /// index, with no documents, where it is not registered and the caller
    /// allows it to be created on the way. An index that is not registered
    /// and may not be created is not found.
    pub fn resolve_or_create(&mut self, name: &str, create_if_absent: bool) -> (r: Result<
        Option<String>,
        Error,
    >)
        requires
            old(self).wf(),
        ensures
            final(self).wf(),
            match r {
                Ok(evicted) => {
                    &&& old(self)@.contains(name@) || create_if_absent
                    &&& final(self)@.contains(name@)
                    &&& final(self)@.entries == (if old(self)@.contains(name@) {
                        old(self)@.entries
                    } else {
                        old(self)@.entries.insert(
                            rank_of(names_of(old(self)@.entries), name@),
                            IndexEntryView { name: name@, stats: empty_stats() },
                        )
                    })
                    &&& final(self)@.capacity == old(self)@.capacity
                    &&& final(self)@.open == old(self)@.open_after_use(name@)
                    &&& final(self)@.open.last() == name@
                    &&& match evicted {
                        Some(n) => old(self)@.evicted_by_use(name@) == Some(n@),
                        None => old(self)@.evicted_by_use(name@) is None,
                    }
                },
                Err(e) => {
                    &&& !old(self)@.contains(name@)
                    &&& !create_if_absent
                    &&& final(self)@ == old(self)@
                    &&& e is IndexNotFound
                    &&& e->IndexNotFound_0@ == name@
                },
            },
    {
        if create_if_absent && !self.contains(name) {
            match self.create(text_owned(name)) {
                Ok(()) => {},
                Err(e) => {
                    return Err(e);
                },
            }
            proof {
                let p = rank_of(names_of(old(self)@.entries), name@);
                lemma_rank_stop(names_of(old(self)@.entries), name@);
                assert(names_of(self@.entries)[p] == name@);
                assert(self@.contains(name@));
            }
        }
        self.resolve(name)
    }

    /// Records the statistics of an index. The statistics have to be well
    /// formed, as all that [`IndexStats::new`] and
    /// [`IndexStats::set_field`] build are.
    pub fn set_stats(&mut self, name: &str, stats: IndexStats) -> (r: Result<(), Error>)
        requires
            old(self).wf(),
            stats.wf(),
        ensures
            final(self).wf(),
            match r {
                Ok(()) => {
                    &&& old(self)@.contains(name@)
                    &&& final(self)@.entries == old(self)@.entries.update(
                        old(self)@.index_of(name@),
                        IndexEntryView { name: name@, stats: stats@ },
                    )
                    &&& final(self)@.open == old(self)@.open
                    &&& final(self)@.capacity == old(self)@.capacity
                },
                Err(e) => {
                    &&& !old(self)@.contains(name@)
                    &&& final(self)@ == old(self)@
                    &&& e is IndexNotFound
                    &&& e->IndexNotFound_0@ == name@
                },
            },
    {
        let (p, found) = self.position(name);
        if !found {
            return Err(Error::IndexNotFound(text_owned(name)));
        }
        let ghost before = self@;
        self.entries[p].stats = stats;
        proof {
            let after = self@;
            assert(after.entries =~= before.entries.update(
                p as int,
                IndexEntryView { name: name@, stats: stats@ },
            ));
            assert(names_of(after.entries) =~= names_of(before.entries));
        }
        Ok(())
    }

    /// Exchanges the contents of two indexes: each name gets what the
    /// other had. Both are closed, to be opened again when next resolved.
    /// The first name that is not registered is the error.
    pub fn swap(&mut self, lhs: &str, rhs: &str) -> (r: Result<(), Error>)
        requires
            old(self).wf(),
        ensures
            final(self).wf(),
            match r {
                Ok(()) => {
                    let a = old(self)@.index_of(lhs@);
                    let b = old(self)@.index_of(rhs@);
                    &&& old(self)@.contains(lhs@)
                    &&& old(self)@.contains(rhs@)
                    &&& final(self)@.entries == old(self)@.entries.update(
                        a,
                        IndexEntryView { name: lhs@, stats: old(self)@.entries[b].stats },
                    ).update(b, IndexEntryView { name: rhs@, stats: old(self)@.entries[a].stats })
                    &&& final(self)@.open == without(without(old(self)@.open, lhs@), rhs@)
                    &&& final(self)@.capacity == old(self)@.capacity
                },
                Err(e) => {
                    &&& final(self)@ == old(self)@
                    &&& e is IndexNotFound
                    &&& if !old(self)@.contains(lhs@) {
                        e->IndexNotFound_0@ == lhs@
                    } else {
                        !old(self)@.contains(rhs@) && e->IndexNotFound_0@ == rhs@
                    }
                },
            },
    {
        let (a, found) = self.position(lhs);
        if !found {
            return Err(Error::IndexNotFound(text_owned(lhs)));
        }
        let (b, found) = self.position(rhs);
        if !found {
            return Err(Error::IndexNotFound(text_owned(rhs)));
        }
        let ghost before = self@;
        let ghost names = names_of(before.entries);
        let kept = self.open_without(lhs);
        self.open = kept;
        let kept = self.open_without(rhs);
        self.open = kept;
        if a != b {
            let lo = if a < b { a } else { b };
            let hi = if a < b { b } else { a };
            let upper = self.entries.remove(hi);
            let lower = self.entries.remove(lo);
            let new_lower = IndexEntry { name: lower.name, stats: upper.stats };
            let new_upper = IndexEntry { name: upper.name, stats: lower.stats };
            self.entries.insert(lo, new_lower);
            self.entries.insert(hi, new_upper);
        }
        proof {
            let after = self@;
            assert(after.entries =~= before.entries.update(
                a as int,
                IndexEntryView { name: lhs@, stats: before.entries[b as int].stats },
            ).update(b as int, IndexEntryView { name: rhs@, stats: before.entries[a as int].stats }));
            assert(names_of(after.entries) =~= names);
            lemma_without(before.open, lhs@);
            lemma_without(without(before.open, lhs@), rhs@);
            assert forall|i: int| 0 <= i < after.open.len() implies after.contains(
                #[trigger] after.open[i],
            ) by {
                let n = after.open[i];
                assert(after.open.contains(n));
                assert(without(before.open, lhs@).contains(n));
                assert(before.open.contains(n));
                let k = choose|k: int| 0 <= k < before.open.len() && before.open[k] == n;
                assert(before.contains(before.open[k]));
            }
        }
        Ok(())
    }

    /// The names of the registered indexes, in increasing order.
    pub fn index_names(&self) -> (names: Vec<String>)
        ensures
            texts_of(names@) == names_of(self@.entries),
    {
        let mut names: Vec<String> = Vec::new();
        let mut i: usize = 0;
        while i < self.entries.len()
            invariant
                i <= self.entries@.len(),
                texts_of(names@) == names_of(self@.entries).take(i as int),
            decreases self.entries.len() - i,
        {
            let ghost before = texts_of(names@);
            names.push(self.entries[i].name.clone());
            proof {
                assert(texts_of(names@) =~= before.push(self.entries@[i as int].name@));
                assert(texts_of(names@) =~= names_of(self@.entries).take(i + 1));
            }
            i = i + 1;
        }
        proof {
            assert(names_of(self@.entries).take(self@.entries.len() as int) =~= names_of(
                self@.entries,
            ));
        }
        names
    }

    /// The statistics of an index. They are well formed: no field is
    /// counted twice.
    pub fn stats_of(&self, name: &str) -> (r: Result<&IndexStats, Error>)
        requires
            self.wf(),
        ensures
            match r {
                Ok(stats) => self@.contains(name@) && stats.wf() && stats@
                    == self@.entries[self@.index_of(name@)].stats,
                Err(e) => !self@.contains(name@) && e is IndexNotFound && e->IndexNotFound_0@
                    == name@,
            },
    {
        let (p, found) = self.position(name);
        if found {
            Ok(&self.entries[p].stats)
        } else {
            Err(Error::IndexNotFound(text_owned(name)))
        }
    }
}

/// Below its rank every name comes before `name`.
pub proof fn lemma_rank_bounds(names: Seq<Seq<char>>, name: Seq<char>, j: int)
    requires
        0 <= j < rank_of(names, name),
    ensures
        j < names.len(),
        text_lt(names[j], name),
    decreases names.len(),
{
    if j > 0 {
        lemma_rank_bounds(names.drop_first(), name, j - 1);
    }
}

/// At its rank the name does not come before `name`, and the rank lies
/// within the list.
pub proof fn lemma_rank_stop(names: Seq<Seq<char>>, name: Seq<char>)
    ensures
        0 <= rank_of(names, name) <= names.len(),
        rank_of(names, name) < names.len() ==> !text_lt(names[rank_of(names, name)], name),
    decreases names.len(),
{
    if names.len() > 0 && text_lt(names[0], name) {
        lemma_rank_stop(names.drop_first(), name);
    }
}

} // verus!
