//! The mutable, order-preserving, unique-keyed mod list.

use vstd::prelude::*;

use crate::ids::PackageId;
use crate::kv::kv_keys;
use crate::kv::lemma_kv_map_contains;
use crate::kv::lemma_kv_map_index;
use crate::kv::lemma_kv_map_remove_absent;
use crate::kv::KeyedVec;

verus! {

/// The display data carried along with each list entry. The detector and the
/// repair loop never read it; it only travels with its package when entries
/// move within or between lists.
pub struct CondensedModMetadata {
    pub displayable_name: String,
    pub location: String,
    pub description: String,
}

/// The position of `k` in a key sequence, if present.
pub open spec fn pos_of(keys: Seq<Seq<char>>, k: Seq<char>) -> Option<int> {
    keys.index_of_first(k)
}

/// List entries with their identifiers taken as character sequences: the
/// level at which conservation of entries across repairs is stated, since
/// repairs may re-clone an identifier while moving an entry.
pub open spec fn entry_views(s: Seq<(PackageId, CondensedModMetadata)>) -> Seq<
    (Seq<char>, CondensedModMetadata),
> {
    s.map_values(|e: (PackageId, CondensedModMetadata)| (e.0@, e.1))
}

/// An order-preserving sequence of packages with unique identifiers; one
/// such list holds the active mods, a second one the inactive mods.
pub struct ModList(pub KeyedVec<CondensedModMetadata>);

impl View for ModList {
    type V = Map<Seq<char>, CondensedModMetadata>;

    open spec fn view(&self) -> Map<Seq<char>, CondensedModMetadata> {
        self.0@
    }
}

impl ModList {
    pub open spec fn wf(&self) -> bool {
        self.0.wf()
    }

    /// The package identifiers in list order: the detector's notion of
    /// position is an index into this sequence.
    pub open spec fn keys(&self) -> Seq<Seq<char>> {
        self.0.keys()
    }

    pub fn new() -> (r: Self)
        ensures
            r.wf(),
            r.keys() =~= Seq::<Seq<char>>::empty(),
            r.0.entries@.len() == 0,
    {
        ModList(KeyedVec::new())
    }

    pub fn len(&self) -> (r: usize)
        ensures
            r == self.keys().len(),
            r == self.0.entries@.len(),
    {
        self.0.len()
    }

    pub fn contains_key(&self, k: &PackageId) -> (r: bool)
        requires
            self.wf(),
        ensures
            r == self.keys().contains(k@),
    {
        proof {
            lemma_kv_map_contains(self.0.entries@, k@);
            if self.0@.contains_key(k@) {
                let w = choose|w: int|
                    0 <= w < self.0.entries@.len() && self.0.entries@[w].0@ == k@;
                assert(self.keys()[w] == k@);
            } else if self.keys().contains(k@) {
                let w = choose|w: int| 0 <= w < self.keys().len() && self.keys()[w] == k@;
                assert(self.0.entries@[w].0@ == k@);
            }
        }
        self.0.contains_key(k)
    }

    /// The position of `k` in the list, if present.
    pub fn get_index_of(&self, k: &PackageId) -> (r: Option<usize>)
        requires
            self.wf(),
        ensures
            r is Some <==> self.keys().contains(k@),
            r is Some ==> pos_of(self.keys(), k@) == Some(r->0 as int),
            r is Some ==> r->0 < self.keys().len() && self.keys()[r->0 as int] == k@,
    {
        let r = self.0.index_of(k);
        proof {
            self.keys().index_of_first_ensures(k@);
            match r {
                Some(i) => {
                    assert(self.keys()[i as int] == k@);
                    let f = pos_of(self.keys(), k@)->0;
                    assert(self.keys()[f] == k@);
                    assert(self.0.entries@[f].0@ == k@);
                    assert(f == i as int);
                },
                None => {
                    if self.keys().contains(k@) {
                        let w = choose|w: int|
                            0 <= w < self.keys().len() && self.keys()[w] == k@;
                        assert(self.0.entries@[w].0@ == k@);
                        assert(false);
                    }
                },
            }
        }
        r
    }

    /// Appends a package at the end of the list.
    pub fn push(&mut self, k: PackageId, meta: CondensedModMetadata)
        requires
            old(self).wf(),
            !old(self).keys().contains(k@),
        ensures
            final(self).wf(),
            final(self).0.entries@ =~= old(self).0.entries@.push((k, meta)),
            final(self).keys() =~= old(self).keys().push(k@),
    {
        proof {
            lemma_kv_map_contains(self.0.entries@, k@);
            if self.0@.contains_key(k@) {
                let w = choose|w: int|
                    0 <= w < self.0.entries@.len() && self.0.entries@[w].0@ == k@;
                assert(self.keys()[w] == k@);
                assert(false);
            }
        }
        self.0.insert(k, meta);
    }

    /// Removes the entry for `k`, shifting later entries down, and returns
    /// its metadata.
    pub fn shift_remove(&mut self, k: &PackageId) -> (r: Option<CondensedModMetadata>)
        requires
            old(self).wf(),
        ensures
            final(self).wf(),
            r is Some <==> old(self).keys().contains(k@),
            r is Some ==> {
                let i = pos_of(old(self).keys(), k@)->0;
                &&& r->0 == old(self).0.entries@[i].1
                &&& final(self).0.entries@ =~= old(self).0.entries@.remove(i)
            },
            r is None ==> final(self).0.entries@ == old(self).0.entries@,
    {
        proof {
            lemma_kv_map_contains(self.0.entries@, k@);
            self.keys().index_of_first_ensures(k@);
            if self.0@.contains_key(k@) {
                let w = choose|w: int|
                    0 <= w < self.0.entries@.len() && self.0.entries@[w].0@ == k@;
                assert(self.keys()[w] == k@);
            } else if self.keys().contains(k@) {
                let w = choose|w: int|
                    0 <= w < self.keys().len() && self.keys()[w] == k@;
                assert(self.0.entries@[w].0@ == k@);
            }
            if self.keys().contains(k@) {
                let i = pos_of(self.keys(), k@)->0;
                assert(self.0.entries@[i].0@ == k@);
                lemma_kv_map_index(self.0.entries@, i);
            }
        }
        self.0.remove(k)
    }

    /// The metadata stored for `k`, if present.
    pub fn get(&self, k: &PackageId) -> (r: Option<&CondensedModMetadata>)
        requires
            self.wf(),
        ensures
            r is Some <==> self@.contains_key(k@),
            r is Some ==> *r->0 == self@[k@],
    {
        self.0.get(k)
    }

    pub fn clear(&mut self)
        ensures
            final(self).wf(),
            final(self).keys() =~= Seq::<Seq<char>>::empty(),
            final(self).0.entries@.len() == 0,
    {
        self.0.clear();
    }

    /// Moves the entry at position `from` to position `to`, shifting the
    /// entries in between.
    pub fn move_index(&mut self, from: usize, to: usize)
        requires
            old(self).wf(),
            from < old(self).0.entries@.len(),
            to < old(self).0.entries@.len(),
        ensures
            final(self).wf(),
            final(self).0.entries@ =~= old(self).0.entries@.remove(from as int).insert(
                to as int,
                old(self).0.entries@[from as int],
            ),
            final(self).keys().len() == old(self).keys().len(),
            final(self).0.entries@.to_multiset() == old(self).0.entries@.to_multiset(),
    {
        broadcast use vstd::seq_lib::group_to_multiset_ensures;
        broadcast use vstd::seq_lib::to_multiset_insert;

        let ghost entries0 = self.0.entries@;
        let (k, v) = self.0.remove_at(from);
        let ghost shifted = self.0.entries@;
        proof {
            lemma_kv_map_remove_absent(entries0, from as int);
            assert(shifted =~= entries0.remove(from as int));
        }
        self.0.insert_at(to, k, v);
        proof {
            let e = entries0[from as int];
            assert(entries0.to_multiset().contains(e)) by {
                assert(entries0.contains(e));
            }
            assert(shifted.to_multiset() =~= entries0.to_multiset().remove(e));
            assert(self.0.entries@ =~= shifted.insert(to as int, e));
            assert(self.0.entries@.to_multiset() =~= shifted.to_multiset().insert(e));
            assert(self.0.entries@.to_multiset() =~= entries0.to_multiset());
        }
    }

    /// Moves the entry for `x` to the position immediately before the entry
    /// for `y`: `x` is taken out of the list and reinserted where `y` then
    /// stands.
    pub fn move_before(&mut self, x: &PackageId, y: &PackageId)
        requires
            old(self).wf(),
            old(self).keys().contains(x@),
            old(self).keys().contains(y@),
            x@ != y@,
        ensures
            final(self).wf(),
            ({
                let i = pos_of(old(self).keys(), x@)->0;
                let shifted = old(self).0.entries@.remove(i);
                let j = pos_of(kv_keys(shifted), y@)->0;
                final(self).0.entries@ =~= shifted.insert(j, old(self).0.entries@[i])
            }),
            final(self).0.entries@.to_multiset() == old(self).0.entries@.to_multiset(),
            entry_views(final(self).0.entries@).to_multiset() == entry_views(
                old(self).0.entries@,
            ).to_multiset(),
            final(self).keys().to_multiset() == old(self).keys().to_multiset(),
            final(self).keys().len() == old(self).keys().len(),
    {
        broadcast use vstd::seq_lib::group_to_multiset_ensures;
        broadcast use vstd::seq_lib::to_multiset_insert;

        let ghost entries0 = self.0.entries@;
        let ix = match self.get_index_of(x) {
            Some(ix) => ix,
            None => {
                proof {
                    assert(false);
                }
                0
            },
        };
        let (k, v) = self.0.remove_at(ix);
        let ghost shifted = self.0.entries@;
        proof {
            assert(shifted =~= entries0.remove(ix as int));
            assert(kv_keys(shifted) =~= old(self).keys().remove(ix as int));
            // y survives the removal of x
            let jy0 = pos_of(old(self).keys(), y@)->0;
            old(self).keys().index_of_first_ensures(y@);
            assert(old(self).keys()[jy0] == y@);
            if jy0 < ix as int {
                assert(kv_keys(shifted)[jy0] == y@);
            } else {
                assert(jy0 != ix as int);
                assert(kv_keys(shifted)[jy0 - 1] == y@);
            }
            assert(kv_keys(shifted).contains(y@));
        }
        let jy = match self.0.index_of(y) {
            Some(jy) => jy,
            None => {
                proof {
                    let w = choose|w: int|
                        0 <= w < kv_keys(shifted).len() && kv_keys(shifted)[w] == y@;
                    assert(shifted[w].0@ == y@);
                    assert(false);
                }
                0
            },
        };
        proof {
            // the scan index is the first (and only) position of y
            kv_keys(shifted).index_of_first_ensures(y@);
            assert(kv_keys(shifted)[jy as int] == y@);
            let f = pos_of(kv_keys(shifted), y@)->0;
            assert(shifted[f].0@ == y@);
            assert(shifted[jy as int].0@ == y@);
            assert(f == jy as int);
            // x's key is gone from the shifted list
            lemma_kv_map_remove_absent(entries0, ix as int);
            assert(shifted =~= entries0.remove(ix as int));
        }
        self.0.insert_at(jy, k, v);
        proof {
            let e = entries0[ix as int];
            assert(entries0.to_multiset().contains(e)) by {
                assert(entries0.contains(e));
            }
            assert(shifted.to_multiset() =~= entries0.to_multiset().remove(e));
            assert(self.0.entries@ =~= shifted.insert(jy as int, e));
            assert(self.0.entries@.to_multiset() =~= shifted.to_multiset().insert(e));
            assert(self.0.entries@.to_multiset() =~= entries0.to_multiset());
            // the same conservation, stated over identifier views
            let ev = (e.0@, e.1);
            assert(entry_views(shifted) =~= entry_views(entries0).remove(ix as int));
            assert(entry_views(entries0)[ix as int] == ev);
            assert(entry_views(entries0).to_multiset().contains(ev)) by {
                assert(entry_views(entries0).contains(ev));
            }
            assert(entry_views(shifted).to_multiset() =~= entry_views(
                entries0,
            ).to_multiset().remove(ev));
            assert(entry_views(self.0.entries@) =~= entry_views(shifted).insert(jy as int, ev));
            assert(entry_views(self.0.entries@).to_multiset() =~= entry_views(
                shifted,
            ).to_multiset().insert(ev));
            assert(entry_views(self.0.entries@).to_multiset() =~= entry_views(
                entries0,
            ).to_multiset());
            // and over the bare key sequence
            assert(kv_keys(shifted) =~= kv_keys(entries0).remove(ix as int));
            assert(kv_keys(entries0)[ix as int] == x@);
            assert(kv_keys(entries0).to_multiset().contains(x@)) by {
                assert(kv_keys(entries0).contains(x@));
            }
            assert(kv_keys(shifted).to_multiset() =~= kv_keys(entries0).to_multiset().remove(x@));
            assert(kv_keys(self.0.entries@) =~= kv_keys(shifted).insert(jy as int, x@));
            assert(kv_keys(self.0.entries@).to_multiset() =~= kv_keys(
                shifted,
            ).to_multiset().insert(x@));
            assert(kv_keys(self.0.entries@).to_multiset() =~= kv_keys(entries0).to_multiset());
        }
    }
}

} // verus!
