//! The derived cache of currently-violated relations.

use vstd::prelude::*;

use crate::ids::PackageId;
use crate::kv::kv_map;
use crate::kv::lemma_kv_map_contains;
use crate::kv::lemma_kv_map_remove_absent;
use crate::kv::lemma_kv_map_index;
use crate::kv::KeyedVec;
use crate::rules::ModRelation;

verus! {

/// The relation recorded for a declarer/target pair, if any: the single
/// observation the detector's bookkeeping is stated over.
pub open spec fn slot(
    c: Map<Seq<char>, Map<Seq<char>, ModRelation>>,
    d: Seq<char>,
    t: Seq<char>,
) -> Option<ModRelation> {
    if c.contains_key(d) && c[d].contains_key(t) {
        Some(c[d][t])
    } else {
        None
    }
}

/// A mapping from each package with at least one currently-violated relation
/// to the packages it conflicts with and the violated relation. The cache is
/// fully derived: it is only ever rebuilt wholesale by the detector, never
/// patched incrementally by callers.
pub struct ModListIssueCache(pub KeyedVec<KeyedVec<ModRelation>>);

impl View for ModListIssueCache {
    type V = Map<Seq<char>, Map<Seq<char>, ModRelation>>;

    open spec fn view(&self) -> Map<Seq<char>, Map<Seq<char>, ModRelation>> {
        kv_map(self.0.entries@).map_values(|m: KeyedVec<ModRelation>| m@)
    }
}

impl ModListIssueCache {
    /// Unique keys inside and out, and no package is kept with an empty
    /// issue set.
    pub open spec fn wf(&self) -> bool {
        &&& self.0.wf()
        &&& forall|i: int|
            0 <= i < self.0.entries@.len() ==> (#[trigger] self.0.entries@[i]).1.wf()
        &&& forall|i: int| 0 <= i < self.0.entries@.len() ==> self.0.entries@[i].1.entries@.len() > 0
    }

    pub fn new() -> (r: Self)
        ensures
            r.wf(),
            r@ == Map::<Seq<char>, Map<Seq<char>, ModRelation>>::empty(),
            forall|d: Seq<char>, t: Seq<char>| slot(r@, d, t) is None,
    {
        let r = ModListIssueCache(KeyedVec::new());
        proof {
            assert(r@ =~= Map::<Seq<char>, Map<Seq<char>, ModRelation>>::empty());
        }
        r
    }

    pub fn clear(&mut self)
        ensures
            final(self).wf(),
            final(self)@ == Map::<Seq<char>, Map<Seq<char>, ModRelation>>::empty(),
            forall|d: Seq<char>, t: Seq<char>| slot(final(self)@, d, t) is None,
    {
        self.0.clear();
        proof {
            assert(self@ =~= Map::<Seq<char>, Map<Seq<char>, ModRelation>>::empty());
        }
    }

    pub fn is_empty(&self) -> (r: bool)
        requires
            self.wf(),
        ensures
            r == (self.0.entries@.len() == 0),
            r ==> self@ == Map::<Seq<char>, Map<Seq<char>, ModRelation>>::empty(),
            r ==> forall|d: Seq<char>, t: Seq<char>| slot(self@, d, t) is None,
            !r ==> exists|d: Seq<char>, t: Seq<char>| slot(self@, d, t) is Some,
    {
        let r = self.0.is_empty();
        proof {
            if r {
                assert(self@ =~= Map::<Seq<char>, Map<Seq<char>, ModRelation>>::empty());
            } else {
                let e = self.0.entries@[0];
                lemma_kv_map_index(self.0.entries@, 0);
                let inner = e.1;
                lemma_kv_map_index(inner.entries@, 0);
                assert(self@.contains_key(e.0@));
                assert(self@[e.0@] == inner@);
                assert(inner@.contains_key(inner.entries@[0].0@));
                assert(slot(self@, e.0@, inner.entries@[0].0@) is Some);
            }
        }
        r
    }

    /// The issue set recorded for `d`, if any.
    pub fn get(&self, d: &PackageId) -> (r: Option<&KeyedVec<ModRelation>>)
        requires
            self.wf(),
        ensures
            match r {
                Some(m) => self@.contains_key(d@) && m@ == self@[d@] && m.wf()
                    && m.entries@.len() > 0,
                None => !self@.contains_key(d@),
            },
    {
        proof {
            lemma_kv_map_contains(self.0.entries@, d@);
        }
        match self.0.index_of(d) {
            Some(i) => {
                proof {
                    lemma_kv_map_index(self.0.entries@, i as int);
                }
                Some(&self.0.entries[i].1)
            },
            None => None,
        }
    }

    pub fn contains_key(&self, d: &PackageId) -> (r: bool)
        requires
            self.wf(),
        ensures
            r == self@.contains_key(d@),
    {
        proof {
            lemma_kv_map_contains(self.0.entries@, d@);
        }
        self.0.index_of(d).is_some()
    }

    /// Records the violated relation `rel` for the pair `(d, t)`,
    /// overwriting any relation already recorded for it.
    pub fn set_issue(&mut self, d: &PackageId, t: &PackageId, rel: ModRelation)
        requires
            old(self).wf(),
        ensures
            final(self).wf(),
            slot(final(self)@, d@, t@) == Some(rel),
            forall|d2: Seq<char>, t2: Seq<char>|
                !(d2 == d@ && t2 == t@) ==> slot(final(self)@, d2, t2) == slot(old(self)@, d2, t2),
            forall|d2: Seq<char>|
                final(self)@.contains_key(d2) <==> (old(self)@.contains_key(d2) || d2 == d@),
    {
        proof {
            lemma_kv_map_contains(self.0.entries@, d@);
        }
        match self.0.index_of(d) {
            Some(i) => {
                proof {
                    lemma_kv_map_index(self.0.entries@, i as int);
                }
                let ghost pre = self.0.entries@;
                let (k, mut m) = self.0.remove_at(i);
                m.insert(t.clone(), rel);
                proof {
                    lemma_kv_map_remove_absent(pre, i as int);
                    assert(self.0.entries@ =~= pre.remove(i as int));
                }
                self.0.insert_at(i, k, m);
                proof {
                    assert forall|d2: Seq<char>, t2: Seq<char>|
                        !(d2 == d@ && t2 == t@) implies slot(self@, d2, t2) == slot(
                        old(self)@,
                        d2,
                        t2,
                    ) by {
                        assert(self@ =~= old(self)@.insert(d@, m@));
                    }
                    assert(self@ =~= old(self)@.insert(d@, m@));
                }
            },
            None => {
                let mut m: KeyedVec<ModRelation> = KeyedVec::new();
                m.insert(t.clone(), rel);
                self.0.insert(d.clone(), m);
                proof {
                    assert(self@ =~= old(self)@.insert(d@, m@));
                }
            },
        }
    }

    /// Removes any relation recorded for the pair `(d, t)`; if that was
    /// `d`'s last issue, `d`'s entry is dropped entirely.
    pub fn remove_issue(&mut self, d: &PackageId, t: &PackageId)
        requires
            old(self).wf(),
        ensures
            final(self).wf(),
            slot(final(self)@, d@, t@) is None,
            forall|d2: Seq<char>, t2: Seq<char>|
                !(d2 == d@ && t2 == t@) ==> slot(final(self)@, d2, t2) == slot(old(self)@, d2, t2),
    {
        proof {
            lemma_kv_map_contains(self.0.entries@, d@);
        }
        match self.0.index_of(d) {
            Some(i) => {
                proof {
                    lemma_kv_map_index(self.0.entries@, i as int);
                }
                let ghost pre = self.0.entries@;
                let (k, mut m) = self.0.remove_at(i);
                m.remove(t);
                proof {
                    lemma_kv_map_remove_absent(pre, i as int);
                    assert(self.0.entries@ =~= pre.remove(i as int));
                }
                if m.is_empty() {
                    proof {
                        assert(m@ =~= Map::<Seq<char>, ModRelation>::empty());
                        assert(self@ =~= old(self)@.remove(d@));
                    }
                } else {
                    self.0.insert_at(i, k, m);
                    proof {
                        assert(self@ =~= old(self)@.insert(d@, m@));
                    }
                }
            },
            None => {},
        }
    }
}

} // verus!
