//! The bounded, heuristic repair loop.

use vstd::prelude::*;

use crate::detect::lemma_pair_issue_facts;
use crate::detect::pair_issue;
use crate::detect::spec_issues;
use crate::ids::PackageId;
use crate::issues::slot;
use crate::issues::ModListIssueCache;
use crate::kv::kv_keys;
use crate::kv::lemma_kv_map_index;
use crate::list::entry_views;
use crate::list::pos_of;
use crate::list::ModList;
use crate::rules::ModRelation;
use crate::rules::ModRuleDb;

verus! {

/// The slots of the model's issue map are exactly the per-pair folds.
pub proof fn lemma_spec_issues_slot(
    sources: Seq<Map<Seq<char>, Map<Seq<char>, ModRelation>>>,
    keys: Seq<Seq<char>>,
    d: Seq<char>,
    t: Seq<char>,
)
    ensures
        slot(spec_issues(sources, keys), d, t) == pair_issue(sources, keys, d, t),
{
    if spec_issues(sources, keys).contains_key(d) {
    } else {
        if pair_issue(sources, keys, d, t) is Some {
            assert(crate::detect::has_issue(sources, keys, d));
        }
    }
}

/// A cache recording exactly one issue: `rel` of `d` toward `t`.
pub open spec fn singleton_issue(d: Seq<char>, t: Seq<char>, rel: ModRelation) -> Map<
    Seq<char>,
    Map<Seq<char>, ModRelation>,
> {
    Map::<Seq<char>, Map<Seq<char>, ModRelation>>::empty().insert(
        d,
        Map::<Seq<char>, ModRelation>::empty().insert(t, rel),
    )
}

/// The smallest repairable state, on which the repair loop owes success: the
/// cache records exactly one issue, a dependency of `d` on the absent
/// package `t`, and `t` waits in the inactive list. Repair then takes
/// exactly the two steps the loop performs — activating `t` at the end of
/// the list (on which order the detector reports the dependency degraded to
/// a single `After` issue), then moving `t` immediately before `d` (on which
/// order the detector reports nothing).
pub open spec fn lone_promotable_dependency(
    cache: Map<Seq<char>, Map<Seq<char>, ModRelation>>,
    inactive_keys: Seq<Seq<char>>,
    sources: Seq<Map<Seq<char>, Map<Seq<char>, ModRelation>>>,
    active_keys: Seq<Seq<char>>,
    d: Seq<char>,
    t: Seq<char>,
) -> bool {
    &&& cache == singleton_issue(d, t, ModRelation::Dependency)
    &&& inactive_keys.contains(t)
    &&& spec_issues(sources, active_keys.push(t)) == singleton_issue(d, t, ModRelation::After)
    &&& spec_issues(sources, active_keys.insert(pos_of(active_keys, d)->0, t)) == Map::<
        Seq<char>,
        Map<Seq<char>, ModRelation>,
    >::empty()
}

/// Looks up, and flips, the oscillation-damping flag of the unordered pair
/// `(a, b)`: on the first encounter of a pair the flag read is `false`.
fn toggle_pair(tracker: &mut Vec<(PackageId, PackageId, bool)>, a: &PackageId, b: &PackageId) -> (r:
    bool)
    ensures
        old(tracker)@.len() == 0 ==> r == false,
{
    let n = tracker.len();
    let mut i: usize = 0;
    while i < n
        invariant
            i <= n,
            n == tracker@.len(),
            tracker@ == old(tracker)@,
        decreases n - i,
    {
        let hit = (tracker[i].0 == *a && tracker[i].1 == *b) || (tracker[i].0 == *b
            && tracker[i].1 == *a);
        if hit {
            let flag = tracker[i].2;
            tracker.set(i, (a.clone(), b.clone(), !flag));
            return flag;
        }
        i += 1;
    }
    tracker.push((a.clone(), b.clone(), true));
    false
}

/// The position, scanning cyclically from `start`, of the first package in
/// the list that the cache records issues for.
#[verifier::loop_isolation(false)]
fn find_issue_index(list: &ModList, issue_cache: &ModListIssueCache, start: usize) -> (r: Option<
    usize,
>)
    requires
        list.wf(),
        issue_cache.wf(),
        start <= list.0.entries@.len(),
    ensures
        match r {
            Some(i) => i < list.keys().len() && issue_cache@.contains_key(list.keys()[i as int]),
            None => forall|j: int|
                0 <= j < list.keys().len() ==> !issue_cache@.contains_key(list.keys()[j]),
        },
{
    let n = list.len();
    let mut i: usize = start;
    while i < n
        invariant
            start <= i <= n,
            forall|j: int| start <= j < i ==> !issue_cache@.contains_key(list.keys()[j]),
        decreases n - i,
    {
        if issue_cache.contains_key(list.0.key_at(i)) {
            return Some(i);
        }
        i += 1;
    }
    let mut i: usize = 0;
    while i < start
        invariant
            i <= start,
            forall|j: int| start <= j < n ==> !issue_cache@.contains_key(list.keys()[j]),
            forall|j: int| 0 <= j < i ==> !issue_cache@.contains_key(list.keys()[j]),
        decreases start - i,
    {
        if issue_cache.contains_key(list.0.key_at(i)) {
            return Some(i);
        }
        i += 1;
    }
    None
}

impl ModList {
    /// Repairs the active list until no issues remain or the retry budget is
    /// exhausted. One repair step fixes one issue: an ordering issue moves
    /// one of the two packages immediately before the other (which one
    /// alternates per unordered pair, to dampen oscillation on indirect
    /// cycles); a dependency issue moves the missing target from the
    /// inactive list to the end of the active list, or fails if it is not
    /// there; an incompatibility fails at once. The detector refreshes the
    /// cache after every step, so success is reported exactly when the cache
    /// ends empty and the final order violates no detectable relation; on
    /// failure the lists keep their partially-repaired state, described by
    /// the refreshed cache. Entries are never lost or invented (the entries
    /// of the two lists together are conserved), no active package is ever
    /// deactivated, an already-clean list is left untouched, and on a
    /// [`lone_promotable_dependency`] state success is owed: the missing
    /// target is activated and moved immediately before its dependent.
    #[verifier::loop_isolation(false)]
    pub fn autofix(
        &mut self,
        db: &ModRuleDb,
        inactive_list: &mut ModList,
        issue_cache: &mut ModListIssueCache,
    ) -> (r: bool)
        requires
            old(self).wf(),
            old(inactive_list).wf(),
            db.wf(),
            old(issue_cache).wf(),
            old(issue_cache)@ == spec_issues(db.rules_view(), old(self).keys()),
        ensures
            final(self).wf(),
            final(inactive_list).wf(),
            final(issue_cache).wf(),
            final(issue_cache)@ == spec_issues(db.rules_view(), final(self).keys()),
            r <==> final(issue_cache)@ == Map::<Seq<char>, Map<Seq<char>, ModRelation>>::empty(),
            old(issue_cache)@ == Map::<Seq<char>, Map<Seq<char>, ModRelation>>::empty() ==> r
                && *final(self) == *old(self) && *final(inactive_list) == *old(inactive_list)
                && *final(issue_cache) == *old(issue_cache),
            (entry_views(final(self).0.entries@) + entry_views(
                final(inactive_list).0.entries@,
            )).to_multiset() == (entry_views(old(self).0.entries@) + entry_views(
                old(inactive_list).0.entries@,
            )).to_multiset(),
            forall|k: Seq<char>|
                #[trigger] old(self).keys().contains(k) ==> final(self).keys().contains(k),
            forall|d: Seq<char>, t: Seq<char>|
                #[trigger] lone_promotable_dependency(
                    old(issue_cache)@,
                    old(inactive_list).keys(),
                    db.rules_view(),
                    old(self).keys(),
                    d,
                    t,
                ) ==> r && final(self).keys() =~= old(self).keys().insert(
                    pos_of(old(self).keys(), d)->0,
                    t,
                ) && !final(inactive_list).keys().contains(t),
    {
        broadcast use vstd::seq_lib::group_to_multiset_ensures;
        broadcast use vstd::seq_lib::lemma_multiset_commutative;

        let ghost views = db.rules_view();
        let ghost keys0 = self.keys();
        let ghost pool = (entry_views(self.0.entries@) + entry_views(
            inactive_list.0.entries@,
        )).to_multiset();
        let mut budget: u128 = 100 + (self.len() as u128) + (inactive_list.len() as u128);
        let mut tracker: Vec<(PackageId, PackageId, bool)> = Vec::new();
        let mut index: usize = 0;
        let ghost promo = exists|d: Seq<char>, t: Seq<char>|
            #[trigger] lone_promotable_dependency(
                old(issue_cache)@,
                old(inactive_list).keys(),
                views,
                old(self).keys(),
                d,
                t,
            );
        let ghost (pd, pt) = choose|d: Seq<char>, t: Seq<char>|
            #[trigger] lone_promotable_dependency(
                old(issue_cache)@,
                old(inactive_list).keys(),
                views,
                old(self).keys(),
                d,
                t,
            );
        if issue_cache.is_empty() {
            proof {
                // the smallest repairable state has a non-empty cache
                assert forall|d: Seq<char>, t: Seq<char>|
                    !lone_promotable_dependency(
                        old(issue_cache)@,
                        old(inactive_list).keys(),
                        views,
                        old(self).keys(),
                        d,
                        t,
                    ) by {
                    if lone_promotable_dependency(
                        old(issue_cache)@,
                        old(inactive_list).keys(),
                        views,
                        old(self).keys(),
                        d,
                        t,
                    ) {
                        assert(singleton_issue(d, t, ModRelation::Dependency).contains_key(d));
                        assert(false);
                    }
                }
            }
            return true;
        }
        proof {
            let (d0, t0) = choose|d0: Seq<char>, t0: Seq<char>|
                slot(issue_cache@, d0, t0) is Some;
            assert(issue_cache@.contains_key(d0));
            assert(old(issue_cache)@ != Map::<Seq<char>, Map<Seq<char>, ModRelation>>::empty());
        }
        let ghost kpromoted = old(self).keys().push(pt);
        let ghost krepaired = old(self).keys().insert(pos_of(old(self).keys(), pd)->0, pt);
        proof {
            if promo {
                assert(lone_promotable_dependency(
                    old(issue_cache)@,
                    old(inactive_list).keys(),
                    views,
                    old(self).keys(),
                    pd,
                    pt,
                ));
                // the recorded dependency places its pair: the declarer is
                // active, the target is not
                assert(slot(old(issue_cache)@, pd, pt) == Some(ModRelation::Dependency));
                lemma_spec_issues_slot(views, old(self).keys(), pd, pt);
                lemma_pair_issue_facts(views, old(self).keys(), pd, pt);
                assert(old(self).keys().contains(pd));
                assert(!old(self).keys().contains(pt));
            }
        }
        loop
            invariant
                old(issue_cache)@ != Map::<Seq<char>, Map<Seq<char>, ModRelation>>::empty(),
                self.wf(),
                inactive_list.wf(),
                issue_cache.wf(),
                issue_cache@ == spec_issues(views, self.keys()),
                (entry_views(self.0.entries@) + entry_views(
                    inactive_list.0.entries@,
                )).to_multiset() == pool,
                forall|k: Seq<char>| #[trigger] keys0.contains(k) ==> self.keys().contains(k),
                index <= self.0.entries@.len(),
                // on the smallest repairable state: no step has run yet, or
                // the target was promoted, or it was also moved into place
                promo ==> ({
                    ||| {
                        &&& issue_cache@ == old(issue_cache)@
                        &&& self.0.entries@ == old(self).0.entries@
                        &&& inactive_list.0.entries@ == old(inactive_list).0.entries@
                        &&& tracker@.len() == 0
                        &&& budget >= 2
                    }
                    ||| {
                        &&& issue_cache@ == singleton_issue(pd, pt, ModRelation::After)
                        &&& self.keys() =~= kpromoted
                        &&& !inactive_list.keys().contains(pt)
                        &&& tracker@.len() == 0
                        &&& budget >= 1
                    }
                    ||| {
                        &&& issue_cache@ == Map::<Seq<char>, Map<Seq<char>, ModRelation>>::empty()
                        &&& self.keys() =~= krepaired
                        &&& !inactive_list.keys().contains(pt)
                    }
                }),
            decreases budget,
        {
            if issue_cache.is_empty() {
                proof {
                    // on the smallest repairable state, reaching an empty
                    // cache means both owed steps have happened
                    assert forall|d: Seq<char>, t: Seq<char>|
                        lone_promotable_dependency(
                            old(issue_cache)@,
                            old(inactive_list).keys(),
                            views,
                            old(self).keys(),
                            d,
                            t,
                        ) implies self.keys() =~= old(self).keys().insert(
                        pos_of(old(self).keys(), d)->0,
                        t,
                    ) && !inactive_list.keys().contains(t) by {
                        assert(promo);
                        // the singleton cache pins the scenario's pair
                        assert(singleton_issue(d, t, ModRelation::Dependency).contains_key(d));
                        assert(singleton_issue(pd, pt, ModRelation::Dependency).contains_key(d));
                        assert(d == pd);
                        assert(singleton_issue(d, t, ModRelation::Dependency)[d].contains_key(t));
                        assert(singleton_issue(pd, pt, ModRelation::Dependency)[pd].contains_key(
                            t,
                        ));
                        assert(t == pt);
                        // the unfinished states still record an issue for d
                        assert(!issue_cache@.contains_key(pd));
                        assert(self.keys() =~= krepaired);
                    }
                }
                return true;
            }
            proof {
                let (d0, t0) = choose|d0: Seq<char>, t0: Seq<char>|
                    slot(issue_cache@, d0, t0) is Some;
                assert(issue_cache@.contains_key(d0));
                assert(issue_cache@ != Map::<Seq<char>, Map<Seq<char>, ModRelation>>::empty());
            }
            let i = match find_issue_index(self, issue_cache, index) {
                Some(i) => i,
                None => {
                    proof {
                        lemma_kv_map_index(issue_cache.0.entries@, 0);
                        let d0 = issue_cache.0.entries@[0].0@;
                        let inner = issue_cache.0.entries@[0].1;
                        lemma_kv_map_index(inner.entries@, 0);
                        let t0 = inner.entries@[0].0@;
                        assert(issue_cache@[d0] == inner@);
                        assert(slot(issue_cache@, d0, t0) is Some);
                        lemma_spec_issues_slot(views, self.keys(), d0, t0);
                        lemma_pair_issue_facts(views, self.keys(), d0, t0);
                        assert(self.keys().contains(d0));
                        let j = choose|j: int|
                            0 <= j < self.keys().len() && self.keys()[j] == d0;
                        assert(!issue_cache@.contains_key(self.keys()[j]));
                        assert(false);
                    }
                    return false;
                },
            };
            index = i;
            let p = self.0.key_at(i).clone();
            let (t, rel) = match issue_cache.get(&p) {
                Some(issues) => {
                    proof {
                        lemma_kv_map_index(issues.entries@, 0);
                    }
                    (issues.key_at(0).clone(), *issues.value_at(0))
                },
                None => {
                    proof {
                        assert(false);
                    }
                    return false;
                },
            };
            proof {
                assert(issue_cache@[p@].contains_key(t@) && issue_cache@[p@][t@] == rel);
                assert(slot(issue_cache@, p@, t@) == Some(rel));
                lemma_spec_issues_slot(views, self.keys(), p@, t@);
                assert(pair_issue(views, self.keys(), p@, t@) == Some(rel));
                lemma_pair_issue_facts(views, self.keys(), p@, t@);
                if promo {
                    // the singleton cache pins the picked issue to the
                    // scenario's pair, whichever of its two steps is next
                    if issue_cache@ == old(issue_cache)@ {
                        assert(issue_cache@ == singleton_issue(pd, pt, ModRelation::Dependency));
                        assert(p@ == pd);
                        assert(issue_cache@[pd].contains_key(t@));
                        assert(t@ == pt);
                        assert(rel == ModRelation::Dependency);
                    } else {
                        assert(issue_cache@ == singleton_issue(pd, pt, ModRelation::After));
                        assert(p@ == pd);
                        assert(issue_cache@[pd].contains_key(t@));
                        assert(t@ == pt);
                        assert(rel == ModRelation::After);
                        assert(tracker@.len() == 0);
                    }
                    assert(budget >= 1);
                }
            }
            if budget == 0 {
                proof {
                    if promo {
                        assert(false);
                    }
                }
                return false;
            }
            budget = budget - 1;
            match rel {
                ModRelation::Before | ModRelation::After => {
                    proof {
                        assert(self.keys().contains(t@));
                        assert(p@ != t@);
                    }
                    let ghost pre_keys = self.keys();
                    let ghost pre_entries = self.0.entries@;
                    let flip = toggle_pair(&mut tracker, &p, &t);
                    if flip {
                        self.move_before(&p, &t);
                    } else {
                        self.move_before(&t, &p);
                    }
                    proof {
                        assert forall|k: Seq<char>| #[trigger] keys0.contains(k) implies self
                            .keys().contains(k) by {
                            assert(pre_keys.contains(k));
                            assert(pre_keys.to_multiset().count(k) > 0);
                            assert(self.keys().to_multiset().count(k) > 0);
                        }
                        if promo {
                            // the scenario's second owed step: the promoted
                            // target moved immediately before its dependent
                            assert(rel == ModRelation::After);
                            assert(!flip);
                            assert(pre_keys == kpromoted);
                            let len0 = old(self).keys().len();
                            // the moved target stood at the end
                            assert(pre_keys[len0 as int] == pt);
                            pre_keys.index_of_first_ensures(pt);
                            let f = pos_of(pre_keys, pt)->0;
                            assert(pre_keys[f] == pt);
                            assert(f == len0 as int) by {
                                if f < len0 as int {
                                    assert(pre_keys[f] == old(self).keys()[f]);
                                }
                            }
                            let shifted = pre_entries.remove(len0 as int);
                            assert(kv_keys(shifted) =~= old(self).keys()) by {
                                assert forall|w: int|
                                    0 <= w < shifted.len() implies kv_keys(shifted)[w] == old(
                                    self,
                                ).keys()[w] by {
                                    assert(shifted[w] == pre_entries[w]);
                                    assert(pre_keys[w] == old(self).keys()[w]);
                                }
                            }
                            // the reinsertion point is the dependent's slot
                            let g = pos_of(kv_keys(shifted), p@)->0;
                            assert(g == pos_of(old(self).keys(), pd)->0);
                            old(self).keys().index_of_first_ensures(pd);
                            assert(0 <= g < len0);
                            assert(pre_entries[len0 as int].0@ == pt);
                            assert(self.0.entries@ =~= shifted.insert(
                                g,
                                pre_entries[len0 as int],
                            ));
                            assert(self.keys() =~= krepaired) by {
                                assert(self.keys().len() == krepaired.len());
                                assert forall|w: int|
                                    0 <= w < self.keys().len() implies self.keys()[w]
                                    == krepaired[w] by {
                                    assert(self.0.entries@[w] == shifted.insert(
                                        g,
                                        pre_entries[len0 as int],
                                    )[w]);
                                    if w < g {
                                        assert(self.0.entries@[w] == shifted[w]);
                                        assert(kv_keys(shifted)[w] == old(self).keys()[w]);
                                        assert(krepaired[w] == old(self).keys()[w]);
                                    } else if w == g {
                                        assert(self.0.entries@[w] == pre_entries[len0 as int]);
                                        assert(krepaired[w] == pt);
                                    } else {
                                        assert(self.0.entries@[w] == shifted[w - 1]);
                                        assert(kv_keys(shifted)[w - 1] == old(self).keys()[w - 1]);
                                        assert(krepaired[w] == old(self).keys()[w - 1]);
                                    }
                                }
                            }
                        }
                    }
                },
                ModRelation::Dependency => {
                    proof {
                        assert(!self.keys().contains(t@));
                    }
                    let ghost inactive0 = inactive_list.0.entries@;
                    let ghost inactive_keys0 = inactive_list.keys();
                    match inactive_list.shift_remove(&t) {
                        Some(meta) => {
                            let ghost active0 = self.0.entries@;
                            let ghost pre_keys = self.keys();
                            let ghost j = crate::list::pos_of(inactive_keys0, t@)->0;
                            proof {
                                inactive_keys0.index_of_first_ensures(t@);
                                assert(0 <= j < inactive0.len());
                                assert(inactive_keys0[j] == t@);
                                assert(inactive0[j].0@ == t@);
                            }
                            self.push(t.clone(), meta);
                            proof {
                                let ev = (inactive0[j].0@, inactive0[j].1);
                                assert(entry_views(inactive_list.0.entries@) =~= entry_views(
                                    inactive0,
                                ).remove(j));
                                assert(entry_views(inactive0)[j] == ev);
                                assert(entry_views(inactive0).to_multiset().contains(ev)) by {
                                    assert(entry_views(inactive0).contains(ev));
                                }
                                assert(entry_views(self.0.entries@) =~= entry_views(active0).push(
                                    (t@, meta),
                                ));
                                assert((t@, meta) == ev);
                                assert((entry_views(self.0.entries@) + entry_views(
                                    inactive_list.0.entries@,
                                )).to_multiset() =~= (entry_views(active0) + entry_views(
                                    inactive0,
                                )).to_multiset());
                                assert forall|k: Seq<char>| #[trigger] keys0.contains(
                                    k,
                                ) implies self.keys().contains(k) by {
                                    assert(pre_keys.contains(k));
                                    let w = choose|w: int|
                                        0 <= w < pre_keys.len() && pre_keys[w] == k;
                                    assert(self.keys()[w] == k);
                                }
                                if promo {
                                    // this was the scenario's one owed step
                                    assert(self.keys() =~= old(self).keys().push(pt));
                                    crate::kv::lemma_kv_map_remove_absent(inactive0, j);
                                    if inactive_list.keys().contains(pt) {
                                        let w = choose|w: int|
                                            0 <= w < inactive_list.keys().len()
                                                && inactive_list.keys()[w] == pt;
                                        assert(inactive_list.0.entries@[w].0@ == pt);
                                        assert(inactive0.remove(j)[w].0@ != inactive0[j].0@);
                                        assert(false);
                                    }
                                }
                            }
                        },
                        None => {
                            proof {
                                if promo {
                                    assert(inactive_keys0.contains(pt));
                                    assert(false);
                                }
                            }
                            return false;
                        },
                    }
                },
                ModRelation::Incompatibility => {
                    proof {
                        if promo {
                            assert(false);
                        }
                    }
                    return false;
                },
            }
            self.find_list_issues(db, issue_cache);
            proof {
                if promo {
                    if rel == ModRelation::Dependency {
                        // promotion done: the refreshed cache reports the
                        // one degraded ordering issue
                        assert(self.keys() =~= kpromoted);
                        assert(issue_cache@ == spec_issues(views, kpromoted));
                        assert(issue_cache@ == singleton_issue(pd, pt, ModRelation::After));
                    } else {
                        // moved into place: the refreshed cache is clean
                        assert(self.keys() =~= krepaired);
                        assert(issue_cache@ == spec_issues(views, krepaired));
                        assert(issue_cache@ == Map::<
                            Seq<char>,
                            Map<Seq<char>, ModRelation>,
                        >::empty());
                    }
                }
            }
        }
    }
}

} // verus!
