//! The versioned record store and its basic operations.
//!
//! A store maps keys to records; a record is a byte-string value together
//! with a version token.  Versions are drawn from a per-store counter that
//! grows by one on every successful write, so every write strictly advances
//! the version of the key it touches.  The abstract state of a store is a
//! `Map<Seq<char>, (Seq<u8>, u64)>` from key to (value, version).

use vstd::map::*;
use vstd::prelude::*;

verus! {

/// The failures the engine can report.
///
/// `get`, `contains` and batch misses never produce an error: absence is an
/// `Option` or an omission.  This in-memory engine never produces
/// `NotFound`, `CaptureConflict` or `Infra`; they complete the taxonomy for
/// callers that also face a remote backend.
#[derive(Clone, Copy, Debug, PartialEq, Eq, Structural)]
pub enum Error {
    /// An operation that requires an existing record found none.
    NotFound,
    /// `increment` found a stored value that is not a valid integer.
    TypeMismatch,
    /// A second absent-state capture was attempted while one was
    /// outstanding.
    CaptureConflict,
    /// The storage backend was unreachable.
    Infra,
}

/// One stored record: a key, its value bytes and its version token.
struct Entry {
    key: String,
    value: Vec<u8>,
    version: u64,
}

/// A named key-value store.
pub struct Store {
    namespace: String,
    entries: Vec<Entry>,
    next_version: u64,
}

/// The map described by a sequence of entries; a later entry for the same
/// key would shadow an earlier one, but the store keeps keys unique.
spec fn map_of(entries: Seq<Entry>) -> Map<Seq<char>, (Seq<u8>, u64)>
    decreases entries.len(),
{
    if entries.len() == 0 {
        Map::empty()
    } else {
        map_of(entries.drop_last()).insert(
            entries.last().key@,
            (entries.last().value@, entries.last().version),
        )
    }
}

/// Keys are pairwise distinct.
spec fn unique_keys(entries: Seq<Entry>) -> bool {
    forall|i: int, j: int|
        0 <= i < j < entries.len() ==> entries[i].key@ != entries[j].key@
}

/// Every version in use is below the bound.
spec fn versions_below(entries: Seq<Entry>, bound: u64) -> bool {
    forall|i: int| 0 <= i < entries.len() ==> entries[i].version < bound
}

proof fn lemma_map_of_contains(entries: Seq<Entry>, k: Seq<char>)
    ensures
        map_of(entries).contains_key(k) <==> exists|i: int|
            0 <= i < entries.len() && entries[i].key@ == k,
    decreases entries.len(),
{
    if entries.len() > 0 {
        lemma_map_of_contains(entries.drop_last(), k);
        if entries.last().key@ == k {
            assert(entries[entries.len() - 1].key@ == k);
        } else if map_of(entries).contains_key(k) {
            let i = choose|i: int| 0 <= i < entries.drop_last().len() && entries.drop_last()[i].key@ == k;
            assert(entries[i].key@ == k);
        } else {
            assert forall|i: int| 0 <= i < entries.len() implies entries[i].key@ != k by {
                if i < entries.len() - 1 {
                    assert(entries.drop_last()[i].key@ == entries[i].key@);
                }
            }
        }
    }
}

proof fn lemma_map_of_at(entries: Seq<Entry>, i: int)
    requires
        unique_keys(entries),
        0 <= i < entries.len(),
    ensures
        map_of(entries).contains_key(entries[i].key@),
        map_of(entries)[entries[i].key@] == (entries[i].value@, entries[i].version),
    decreases entries.len(),
{
    if i == entries.len() - 1 {
    } else {
        assert(unique_keys(entries.drop_last())) by {
            assert forall|a: int, b: int|
                0 <= a < b < entries.drop_last().len() implies entries.drop_last()[a].key@
                != entries.drop_last()[b].key@ by {
                assert(entries.drop_last()[a].key@ == entries[a].key@);
                assert(entries.drop_last()[b].key@ == entries[b].key@);
            }
        }
        assert(entries.drop_last()[i].key@ == entries[i].key@);
        lemma_map_of_at(entries.drop_last(), i);
        assert(entries[i].key@ != entries.last().key@);
    }
}

proof fn lemma_unique_drop_last(entries: Seq<Entry>)
    requires
        unique_keys(entries),
        entries.len() > 0,
    ensures
        unique_keys(entries.drop_last()),
{
    assert forall|a: int, b: int|
        0 <= a < b < entries.drop_last().len() implies entries.drop_last()[a].key@
        != entries.drop_last()[b].key@ by {
        assert(entries.drop_last()[a].key@ == entries[a].key@);
        assert(entries.drop_last()[b].key@ == entries[b].key@);
    }
}

proof fn lemma_map_of_remove(entries: Seq<Entry>, i: int)
    requires
        unique_keys(entries),
        0 <= i < entries.len(),
    ensures
        map_of(entries.remove(i)) == map_of(entries).remove(entries[i].key@),
    decreases entries.len(),
{
    let k = entries[i].key@;
    if i == entries.len() - 1 {
        assert(entries.remove(i) =~= entries.drop_last());
        lemma_unique_drop_last(entries);
        lemma_map_of_contains(entries.drop_last(), k);
        assert forall|j: int| 0 <= j < entries.drop_last().len() implies entries.drop_last()[j].key@
            != k by {
            assert(entries.drop_last()[j].key@ == entries[j].key@);
        }
        assert(!map_of(entries.drop_last()).contains_key(k));
        assert_maps_equal!(
            map_of(entries.drop_last()).insert(k, (entries[i].value@, entries[i].version)).remove(k)
                , map_of(entries.drop_last())
        );
    } else {
        lemma_unique_drop_last(entries);
        assert(entries.remove(i).drop_last() =~= entries.drop_last().remove(i));
        assert(entries.remove(i).last() == entries.last());
        lemma_map_of_remove(entries.drop_last(), i);
        assert(entries.drop_last()[i].key@ == k);
        let last = entries.last();
        assert(last.key@ != k);
        assert(map_of(entries.remove(i)) == map_of(entries.drop_last()).remove(k).insert(
            last.key@,
            (last.value@, last.version),
        ));
        assert_maps_equal!(
            map_of(entries.drop_last()).remove(k).insert(last.key@, (last.value@, last.version))
                , map_of(entries.drop_last()).insert(last.key@, (last.value@, last.version)).remove(k)
        );
    }
}

impl View for Store {
    type V = Map<Seq<char>, (Seq<u8>, u64)>;

    closed spec fn view(&self) -> Map<Seq<char>, (Seq<u8>, u64)> {
        map_of(self.entries@)
    }
}

impl Store {
    /// The store is well formed: keys are unique and every version in use
    /// lies below the next free version token.
    pub closed spec fn inv(&self) -> bool {
        &&& unique_keys(self.entries@)
        &&& versions_below(self.entries@, self.next_version)
    }

    /// The next version token the store will hand out; every version in
    /// the store's records is strictly below it.
    pub closed spec fn version_bound(&self) -> u64 {
        self.next_version
    }

    /// The namespace this store was opened under.
    pub closed spec fn namespace(&self) -> Seq<char> {
        self.namespace@
    }

    /// The next version token, as a runtime value, so that unverified
    /// callers can check that version space is left before a write.
    pub fn next_version_token(&self) -> (r: u64)
        ensures
            r == self.version_bound(),
    {
        self.next_version
    }

    /// Every record's version lies below `version_bound()`.
    pub proof fn lemma_versions_below_bound(&self, k: Seq<char>)
        requires
            self.inv(),
            self@.contains_key(k),
        ensures
            self@[k].1 < self.version_bound(),
    {
        lemma_map_of_contains(self.entries@, k);
        let i = choose|i: int| 0 <= i < self.entries@.len() && self.entries@[i].key@ == k;
        lemma_map_of_at(self.entries@, i);
    }

    /// The index of the entry holding `key`, if any.
    fn find(&self, key: &String) -> (r: Option<usize>)
        ensures
            match r {
                Some(i) => i < self.entries@.len() && self.entries@[i as int].key@ == key@,
                None => forall|i: int|
                    0 <= i < self.entries@.len() ==> self.entries@[i].key@ != key@,
            },
    {
        let mut i: usize = 0;
        while i < self.entries.len()
            invariant
                i <= self.entries@.len(),
                forall|j: int| 0 <= j < i ==> self.entries@[j].key@ != key@,
            decreases self.entries@.len() - i,
        {
            if self.entries[i].key == *key {
                return Some(i);
            }
            i = i + 1;
        }
        None
    }

    /// True iff the key is currently present.  No side effect.
    pub fn contains(&self, key: &str) -> (r: bool)
        ensures
            r == self@.contains_key(key@),
    {
        let owned = key.to_owned();
        let r = self.find(&owned);
        proof {
            lemma_map_of_contains(self.entries@, key@);
        }
        match r {
            Some(_) => true,
            None => false,
        }
    }

    /// The value stored under the key together with its version, if the
    /// key is present.  No side effect.
    pub(crate) fn record(&self, key: &str) -> (r: Option<(Vec<u8>, u64)>)
        requires
            self.inv(),
        ensures
            match r {
                Some(p) => self@.contains_key(key@) && p.0@ == self@[key@].0 && p.1
                    == self@[key@].1,
                None => !self@.contains_key(key@),
            },
    {
        let owned = key.to_owned();
        proof {
            lemma_map_of_contains(self.entries@, key@);
        }
        match self.find(&owned) {
            Some(i) => {
                proof {
                    lemma_map_of_at(self.entries@, i as int);
                }
                let value = vstd::slice::slice_to_vec(self.entries[i].value.as_slice());
                Some((value, self.entries[i].version))
            },
            None => None,
        }
    }

    /// The value stored under the key, or `None` where the key is absent.
    /// No side effect.
    pub fn get(&self, key: &str) -> (r: Option<Vec<u8>>)
        requires
            self.inv(),
        ensures
            match r {
                Some(v) => self@.contains_key(key@) && v@ == self@[key@].0,
                None => !self@.contains_key(key@),
            },
    {
        match self.record(key) {
            Some(p) => Some(p.0),
            None => None,
        }
    }

    /// Upserts the record under the key, giving it the store's next
    /// version token; the token is spent whether or not the key existed.
    pub(crate) fn write(&mut self, key: &str, value: Vec<u8>)
        requires
            old(self).inv(),
            old(self).version_bound() < u64::MAX,
        ensures
            final(self).inv(),
            final(self)@ == old(self)@.insert(key@, (value@, old(self).version_bound())),
            final(self).version_bound() == old(self).version_bound() + 1,
            final(self).namespace() == old(self).namespace(),
    {
        let owned = key.to_owned();
        let ver = self.next_version;
        self.next_version = self.next_version + 1;
        let ghost pre = self.entries@;
        match self.find(&owned) {
            Some(i) => {
                proof {
                    lemma_map_of_remove(pre, i as int);
                }
                self.entries.remove(i);
                proof {
                    assert forall|a: int, b: int|
                        0 <= a < b < self.entries@.len() implies self.entries@[a].key@
                        != self.entries@[b].key@ by {
                        if b < i as int {
                            assert(self.entries@[a] == pre[a]);
                            assert(self.entries@[b] == pre[b]);
                        } else if a < i as int {
                            assert(self.entries@[a] == pre[a]);
                            assert(self.entries@[b] == pre[b + 1]);
                        } else {
                            assert(self.entries@[a] == pre[a + 1]);
                            assert(self.entries@[b] == pre[b + 1]);
                        }
                    }
                    assert forall|j: int| 0 <= j < self.entries@.len() implies self.entries@[j].key@
                        != key@ by {
                        if j < i as int {
                            assert(self.entries@[j] == pre[j]);
                        } else {
                            assert(self.entries@[j] == pre[j + 1]);
                        }
                    }
                }
            },
            None => {},
        }
        let ghost mid = self.entries@;
        self.entries.push(Entry { key: owned, value, version: ver });
        proof {
            assert(self.entries@.drop_last() =~= mid);
            assert forall|a: int, b: int|
                0 <= a < b < self.entries@.len() implies self.entries@[a].key@
                != self.entries@[b].key@ by {
                if b < self.entries@.len() - 1 {
                    assert(self.entries@[a] == mid[a]);
                    assert(self.entries@[b] == mid[b]);
                } else {
                    assert(self.entries@[a] == mid[a]);
                }
            }
            if map_of(pre).contains_key(key@) {
                assert_maps_equal!(
                    map_of(pre).remove(key@).insert(key@, (value@, ver))
                        , map_of(pre).insert(key@, (value@, ver))
                );
            } else {
                lemma_map_of_contains(pre, key@);
            }
        }
    }

    /// Upserts the record under the key, unconditionally, and advances the
    /// key's version.
    pub fn set(&mut self, key: &str, value: &[u8])
        requires
            old(self).inv(),
            old(self).version_bound() < u64::MAX,
        ensures
            final(self).inv(),
            final(self)@ == old(self)@.insert(key@, (value@, old(self).version_bound())),
            final(self).version_bound() == old(self).version_bound() + 1,
            final(self).namespace() == old(self).namespace(),
            final(self)@.contains_key(key@),
            final(self)@[key@].0 == value@,
    {
        let v = vstd::slice::slice_to_vec(value);
        self.write(key, v);
    }

    /// Removes the record if present; a no-op, not an error, where the key
    /// is absent.
    pub fn delete(&mut self, key: &str)
        requires
            old(self).inv(),
        ensures
            final(self).inv(),
            final(self)@ == old(self)@.remove(key@),
            final(self).version_bound() == old(self).version_bound(),
            final(self).namespace() == old(self).namespace(),
            !old(self)@.contains_key(key@) ==> *final(self) == *old(self),
    {
        let owned = key.to_owned();
        let ghost pre = self.entries@;
        proof {
            lemma_map_of_contains(pre, key@);
        }
        match self.find(&owned) {
            Some(i) => {
                proof {
                    lemma_map_of_at(pre, i as int);
                    lemma_map_of_remove(pre, i as int);
                }
                self.entries.remove(i);
                proof {
                    assert forall|a: int, b: int|
                        0 <= a < b < self.entries@.len() implies self.entries@[a].key@
                        != self.entries@[b].key@ by {
                        if b < i as int {
                            assert(self.entries@[a] == pre[a]);
                            assert(self.entries@[b] == pre[b]);
                        } else if a < i as int {
                            assert(self.entries@[a] == pre[a]);
                            assert(self.entries@[b] == pre[b + 1]);
                        } else {
                            assert(self.entries@[a] == pre[a + 1]);
                            assert(self.entries@[b] == pre[b + 1]);
                        }
                    }
                    assert forall|j: int| 0 <= j < self.entries@.len() implies self.entries@[j].version
                        < self.next_version by {
                        if j < i as int {
                            assert(self.entries@[j] == pre[j]);
                        } else {
                            assert(self.entries@[j] == pre[j + 1]);
                        }
                    }
                }
            },
            None => {
                proof {
                    assert_maps_equal!(map_of(pre).remove(key@) , map_of(pre));
                }
            },
        }
    }

    /// A point-in-time snapshot of all keys, as an unordered set without
    /// duplicates.  The engine returns every key in one page: the optional
    /// pagination cursor is accepted and the returned next cursor is
    /// always `None`.
    pub fn list_keys(&self, cursor: Option<u64>) -> (r: (Vec<String>, Option<u64>))
        requires
            self.inv(),
        ensures
            r.1 is None,
            r.0@.map_values(|k: String| k@).to_set() == self@.dom(),
            forall|a: int, b: int| 0 <= a < b < r.0@.len() ==> r.0@[a]@ != r.0@[b]@,
    {
        let _ = cursor;
        let mut keys: Vec<String> = Vec::new();
        let mut i: usize = 0;
        while i < self.entries.len()
            invariant
                self.inv(),
                i <= self.entries@.len(),
                keys@.len() == i,
                forall|j: int| 0 <= j < i ==> keys@[j]@ == self.entries@[j].key@,
            decreases self.entries@.len() - i,
        {
            keys.push(self.entries[i].key.clone());
            i = i + 1;
        }
        proof {
            let view = keys@.map_values(|k: String| k@);
            assert forall|k: Seq<char>| view.to_set().contains(k) implies self@.dom().contains(k) by {
                let j = choose|j: int| 0 <= j < view.len() && view[j] == k;
                lemma_map_of_at(self.entries@, j);
            }
            assert forall|k: Seq<char>| self@.dom().contains(k) implies view.to_set().contains(k) by {
                lemma_map_of_contains(self.entries@, k);
                let j = choose|j: int| 0 <= j < self.entries@.len() && self.entries@[j].key@ == k;
                assert(view[j] == k);
            }
            assert(view.to_set() =~= self@.dom());
        }
        (keys, None)
    }
}

/// Opens the store of the given namespace.  The store starts empty and
/// well formed, with the whole version space ahead of it.
pub fn open(namespace: &str) -> (s: Store)
    ensures
        s.inv(),
        s@ == Map::<Seq<char>, (Seq<u8>, u64)>::empty(),
        s.version_bound() == 0,
        s.namespace() == namespace@,
{
    Store { namespace: namespace.to_owned(), entries: Vec::new(), next_version: 0 }
}

/// Deleting an absent key leaves the store's map unchanged: removing a key
/// that is not in the map's domain is the identity.
pub proof fn lemma_delete_absent(m: Map<Seq<char>, (Seq<u8>, u64)>, k: Seq<char>)
    requires
        !m.contains_key(k),
    ensures
        m.remove(k) == m,
{
    assert_maps_equal!(m.remove(k) , m);
}

/// Setting a key and then getting it returns exactly the value written:
/// in the map that `set` leaves behind, the key is present and holds the
/// written bytes, whatever the store held before.
pub proof fn lemma_set_then_get(
    m: Map<Seq<char>, (Seq<u8>, u64)>,
    k: Seq<char>,
    v: Seq<u8>,
    ver: u64,
)
    ensures
        m.insert(k, (v, ver)).contains_key(k),
        m.insert(k, (v, ver))[k].0 == v,
{
}

} // verus!
