//! An order-preserving, unique-keyed association vector.
//!
//! All keyed collections of the crate (rule sets, rule databases, mod lists,
//! issue caches) are built on this type, so that their iteration order is a
//! deterministic, observable property: entries stand in insertion order, and
//! every lookup is settled by character-for-character key equality.

use vstd::prelude::*;

use crate::ids::PackageId;

verus! {

/// The finite map that an association sequence denotes: later entries win,
/// which is irrelevant under the uniqueness invariant but makes the
/// definition total.
pub open spec fn kv_map<V>(s: Seq<(PackageId, V)>) -> Map<Seq<char>, V>
    decreases s.len(),
{
    if s.len() == 0 {
        Map::empty()
    } else {
        kv_map(s.drop_last()).insert(s.last().0@, s.last().1)
    }
}

/// The key views of an association sequence, in entry order.
pub open spec fn kv_keys<V>(s: Seq<(PackageId, V)>) -> Seq<Seq<char>> {
    s.map_values(|e: (PackageId, V)| e.0@)
}

/// Whether every key appears at most once.
pub open spec fn kv_unique<V>(s: Seq<(PackageId, V)>) -> bool {
    forall|i: int, j: int|
        0 <= i < j < s.len() ==> s[i].0@ != s[j].0@
}

pub proof fn lemma_kv_map_contains<V>(s: Seq<(PackageId, V)>, k: Seq<char>)
    ensures
        kv_map(s).contains_key(k) <==> exists|i: int| 0 <= i < s.len() && s[i].0@ == k,
    decreases s.len(),
{
    if s.len() > 0 {
        lemma_kv_map_contains(s.drop_last(), k);
        if s.last().0@ == k {
            assert(s[s.len() - 1].0@ == k);
        } else if kv_map(s).contains_key(k) {
            let i = choose|i: int| 0 <= i < s.drop_last().len() && s.drop_last()[i].0@ == k;
            assert(s[i].0@ == k);
        } else if exists|i: int| 0 <= i < s.len() && s[i].0@ == k {
            let i = choose|i: int| 0 <= i < s.len() && s[i].0@ == k;
            assert(s.drop_last()[i].0@ == k);
        }
    }
}

pub proof fn lemma_kv_map_index<V>(s: Seq<(PackageId, V)>, i: int)
    requires
        kv_unique(s),
        0 <= i < s.len(),
    ensures
        kv_map(s).contains_key(s[i].0@),
        kv_map(s)[s[i].0@] == s[i].1,
    decreases s.len(),
{
    if i < s.len() - 1 {
        assert(kv_unique(s.drop_last()));
        lemma_kv_map_index(s.drop_last(), i);
        assert(s[i].0@ != s.last().0@);
    }
}

/// Removing the one entry that holds a key leaves that key absent.
pub proof fn lemma_kv_map_remove_absent<V>(s: Seq<(PackageId, V)>, i: int)
    requires
        kv_unique(s),
        0 <= i < s.len(),
    ensures
        !kv_map(s.remove(i)).contains_key(s[i].0@),
        forall|j: int| 0 <= j < s.remove(i).len() ==> s.remove(i)[j].0@ != s[i].0@,
{
    assert forall|j: int| 0 <= j < s.remove(i).len() implies s.remove(i)[j].0@ != s[i].0@ by {
        if j < i {
            assert(s.remove(i)[j] == s[j]);
        } else {
            assert(s.remove(i)[j] == s[j + 1]);
        }
    }
    lemma_kv_map_contains(s.remove(i), s[i].0@);
}

pub proof fn lemma_kv_map_push<V>(s: Seq<(PackageId, V)>, k: PackageId, v: V)
    ensures
        kv_map(s.push((k, v))) == kv_map(s).insert(k@, v),
{
    assert(s.push((k, v)).drop_last() =~= s);
}

pub proof fn lemma_kv_map_update<V>(s: Seq<(PackageId, V)>, i: int, k: PackageId, v: V)
    requires
        kv_unique(s),
        0 <= i < s.len(),
        s[i].0@ == k@,
    ensures
        kv_map(s.update(i, (k, v))) == kv_map(s).insert(k@, v),
    decreases s.len(),
{
    let t = s.update(i, (k, v));
    if i == s.len() - 1 {
        assert(t.drop_last() =~= s.drop_last());
        assert(t.last() == (k, v));
    } else {
        assert(t.drop_last() =~= s.drop_last().update(i, (k, v)));
        assert(kv_unique(s.drop_last()));
        lemma_kv_map_update(s.drop_last(), i, k, v);
        assert(t.last() == s.last());
        assert(s.last().0@ != k@);
        assert(kv_map(t) =~= kv_map(s).insert(k@, v));
    }
}

pub proof fn lemma_kv_map_remove<V>(s: Seq<(PackageId, V)>, i: int)
    requires
        kv_unique(s),
        0 <= i < s.len(),
    ensures
        kv_map(s.remove(i)) == kv_map(s).remove(s[i].0@),
    decreases s.len(),
{
    let t = s.remove(i);
    if i == s.len() - 1 {
        assert(t =~= s.drop_last());
        lemma_kv_map_contains(s.drop_last(), s[i].0@);
        assert(forall|j: int| 0 <= j < s.drop_last().len() ==> s.drop_last()[j].0@ != s[i].0@);
        assert(!kv_map(s.drop_last()).contains_key(s[i].0@));
        assert(kv_map(t) =~= kv_map(s).remove(s[i].0@));
    } else {
        assert(t.drop_last() =~= s.drop_last().remove(i));
        assert(kv_unique(s.drop_last()));
        lemma_kv_map_remove(s.drop_last(), i);
        assert(t.last() == s.last());
        assert(s.last().0@ != s[i].0@);
        assert(kv_map(t) =~= kv_map(s).remove(s[i].0@));
    }
}

pub proof fn lemma_kv_map_insert_fresh<V>(s: Seq<(PackageId, V)>, i: int, k: PackageId, v: V)
    requires
        0 <= i <= s.len(),
        forall|j: int| 0 <= j < s.len() ==> s[j].0@ != k@,
    ensures
        kv_map(s.insert(i, (k, v))) == kv_map(s).insert(k@, v),
    decreases s.len(),
{
    let t = s.insert(i, (k, v));
    if i == s.len() {
        assert(t =~= s.push((k, v)));
        lemma_kv_map_push(s, k, v);
    } else {
        assert(t.drop_last() =~= s.drop_last().insert(i, (k, v)));
        lemma_kv_map_insert_fresh(s.drop_last(), i, k, v);
        assert(t.last() == s.last());
        assert(s.last().0@ != k@);
        assert(kv_map(t) =~= kv_map(s).insert(k@, v));
    }
}

/// An insertion-ordered map from [`PackageId`] to `V` in which every key
/// appears at most once.
pub struct KeyedVec<V> {
    pub entries: Vec<(PackageId, V)>,
}

impl<V> View for KeyedVec<V> {
    type V = Map<Seq<char>, V>;

    open spec fn view(&self) -> Map<Seq<char>, V> {
        kv_map(self.entries@)
    }
}

impl<V> KeyedVec<V> {
    /// The uniqueness invariant.
    pub open spec fn wf(&self) -> bool {
        kv_unique(self.entries@)
    }

    /// The key views in entry order.
    pub open spec fn keys(&self) -> Seq<Seq<char>> {
        kv_keys(self.entries@)
    }

    pub fn new() -> (r: Self)
        ensures
            r.wf(),
            r@ == Map::<Seq<char>, V>::empty(),
            r.keys() =~= Seq::<Seq<char>>::empty(),
            r.entries@.len() == 0,
    {
        KeyedVec { entries: Vec::new() }
    }

    pub fn len(&self) -> (r: usize)
        ensures
            r == self.entries@.len(),
    {
        self.entries.len()
    }

    pub fn is_empty(&self) -> (r: bool)
        ensures
            r == (self.entries@.len() == 0),
            r == (self.keys().len() == 0),
    {
        self.entries.len() == 0
    }

    pub fn clear(&mut self)
        ensures
            final(self).wf(),
            final(self)@ == Map::<Seq<char>, V>::empty(),
            final(self).keys() =~= Seq::<Seq<char>>::empty(),
            final(self).entries@.len() == 0,
    {
        self.entries.clear();
    }

    /// The position of `k`, scanning in entry order.
    pub fn index_of(&self, k: &PackageId) -> (r: Option<usize>)
        ensures
            match r {
                Some(i) => i < self.entries@.len() && self.entries@[i as int].0@ == k@,
                None => forall|j: int| 0 <= j < self.entries@.len() ==> self.entries@[j].0@ != k@,
            },
    {
        let mut i: usize = 0;
        while i < self.entries.len()
            invariant
                i <= self.entries@.len(),
                forall|j: int| 0 <= j < i ==> self.entries@[j].0@ != k@,
            decreases self.entries@.len() - i,
        {
            if &self.entries[i].0 == k {
                return Some(i);
            }
            i += 1;
        }
        None
    }

    pub fn contains_key(&self, k: &PackageId) -> (r: bool)
        ensures
            r == self@.contains_key(k@),
    {
        proof {
            lemma_kv_map_contains(self.entries@, k@);
        }
        self.index_of(k).is_some()
    }

    pub fn get(&self, k: &PackageId) -> (r: Option<&V>)
        requires
            self.wf(),
        ensures
            match r {
                Some(v) => self@.contains_key(k@) && *v == self@[k@],
                None => !self@.contains_key(k@),
            },
    {
        proof {
            lemma_kv_map_contains(self.entries@, k@);
        }
        match self.index_of(k) {
            Some(i) => {
                proof {
                    lemma_kv_map_index(self.entries@, i as int);
                }
                Some(&self.entries[i].1)
            },
            None => None,
        }
    }

    pub fn key_at(&self, i: usize) -> (r: &PackageId)
        requires
            i < self.entries@.len(),
        ensures
            r@ == self.entries@[i as int].0@,
            r@ == self.keys()[i as int],
    {
        &self.entries[i].0
    }

    pub fn value_at(&self, i: usize) -> (r: &V)
        requires
            i < self.entries@.len(),
        ensures
            *r == self.entries@[i as int].1,
    {
        &self.entries[i].1
    }

    /// Inserts `v` under `k`: an existing entry keeps its position and has
    /// its value replaced, a new key is appended at the end.
    pub fn insert(&mut self, k: PackageId, v: V)
        requires
            old(self).wf(),
        ensures
            final(self).wf(),
            final(self)@ == old(self)@.insert(k@, v),
            old(self)@.contains_key(k@) ==> final(self).keys() =~= old(self).keys(),
            !old(self)@.contains_key(k@) ==> final(self).keys() =~= old(self).keys().push(k@),
            !old(self)@.contains_key(k@) ==> final(self).entries@ =~= old(self).entries@.push(
                (k, v),
            ),
            final(self).entries@.len() == old(self).entries@.len() + (
                if old(self)@.contains_key(k@) { 0int } else { 1int }
            ),
    {
        proof {
            lemma_kv_map_contains(self.entries@, k@);
        }
        match self.index_of(&k) {
            Some(i) => {
                proof {
                    lemma_kv_map_update(self.entries@, i as int, k, v);
                }
                self.entries.set(i, (k, v));
                assert(kv_keys(self.entries@) =~= kv_keys(old(self).entries@));
            },
            None => {
                proof {
                    lemma_kv_map_push(self.entries@, k, v);
                }
                self.entries.push((k, v));
                assert(kv_keys(self.entries@) =~= kv_keys(old(self).entries@).push(k@));
            },
        }
    }

    /// Removes the entry under `k`, shifting later entries down, and returns
    /// its value.
    pub fn remove(&mut self, k: &PackageId) -> (r: Option<V>)
        requires
            old(self).wf(),
        ensures
            final(self).wf(),
            final(self)@ == old(self)@.remove(k@),
            r is Some <==> old(self)@.contains_key(k@),
            r is Some ==> r->0 == old(self)@[k@],
            r is Some ==> {
                let i = old(self).keys().index_of_first(k@)->0;
                final(self).entries@ =~= old(self).entries@.remove(i)
            },
            r is None ==> final(self)@ == old(self)@ && final(self).entries@ == old(
                self,
            ).entries@,
    {
        proof {
            lemma_kv_map_contains(self.entries@, k@);
        }
        match self.index_of(k) {
            Some(i) => {
                proof {
                    lemma_kv_map_index(self.entries@, i as int);
                    lemma_kv_map_remove(self.entries@, i as int);
                    let keys = old(self).keys();
                    assert(keys[i as int] == k@);
                    keys.index_of_first_ensures(k@);
                    let f = keys.index_of_first(k@)->0;
                    assert(keys[f] == k@);
                    assert(old(self).entries@[f].0@ == k@);
                    assert(f == i as int);
                }
                let e = self.entries.remove(i);
                Some(e.1)
            },
            None => None,
        }
    }

    /// Removes the entry at position `i` and returns it.
    pub fn remove_at(&mut self, i: usize) -> (r: (PackageId, V))
        requires
            old(self).wf(),
            i < old(self).entries@.len(),
        ensures
            final(self).wf(),
            r == old(self).entries@[i as int],
            final(self).entries@ =~= old(self).entries@.remove(i as int),
            final(self)@ == old(self)@.remove(r.0@),
    {
        proof {
            lemma_kv_map_remove(self.entries@, i as int);
        }
        self.entries.remove(i)
    }

    /// Inserts an entry with a key not yet present at position `i`, shifting
    /// later entries up.
    pub fn insert_at(&mut self, i: usize, k: PackageId, v: V)
        requires
            old(self).wf(),
            i <= old(self).entries@.len(),
            !old(self)@.contains_key(k@),
        ensures
            final(self).wf(),
            final(self).entries@ =~= old(self).entries@.insert(i as int, (k, v)),
            final(self)@ == old(self)@.insert(k@, v),
    {
        proof {
            lemma_kv_map_contains(self.entries@, k@);
            lemma_kv_map_insert_fresh(self.entries@, i as int, k, v);
        }
        self.entries.insert(i, (k, v));
    }
}

} // verus!
