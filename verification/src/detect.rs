//! The violation detector: its mathematical model and the executable scan.
//!
//! The model folds, for each declarer/target pair, the relations that the
//! database's sources declare for that pair, in source order, into at most
//! one recorded issue. The executable detector rebuilds the issue cache
//! wholesale and is proved to produce exactly that fold.

use vstd::prelude::*;

use crate::ids::PackageId;
use crate::issues::slot;
use crate::issues::ModListIssueCache;
use crate::kv::kv_map;
use crate::kv::lemma_kv_map_contains;
use crate::kv::lemma_kv_map_index;
use crate::kv::KeyedVec;
use crate::list::pos_of;
use crate::list::ModList;
use crate::rules::ModRelation;
use crate::rules::ModRuleDb;

verus! {

/// The position of a present key, as a plain integer.
pub open spec fn pos(keys: Seq<Seq<char>>, k: Seq<char>) -> int {
    pos_of(keys, k)->0
}

/// How one declared relation for the pair `(d, t)` updates the issue
/// recorded for that pair, given the list order `keys` (`d` is presumed
/// present; `prev` is the issue recorded by earlier sources):
/// - `Before` is violated when the declarer stands after its target;
/// - `After` is violated when the declarer stands before its target;
/// - `Dependency` is a hard failure while the target is absent and degrades
///   to an `After` requirement once it is present, settling the pair either
///   way;
/// - `Incompatibility` is violated whenever both packages are present.
pub open spec fn step_issue(
    prev: Option<ModRelation>,
    rel: ModRelation,
    keys: Seq<Seq<char>>,
    d: Seq<char>,
    t: Seq<char>,
) -> Option<ModRelation> {
    match rel {
        ModRelation::Before => if keys.contains(t) && pos(keys, d) > pos(keys, t) {
            Some(ModRelation::Before)
        } else {
            prev
        },
        ModRelation::After => if keys.contains(t) && pos(keys, d) < pos(keys, t) {
            Some(ModRelation::After)
        } else {
            prev
        },
        ModRelation::Dependency => if !keys.contains(t) {
            Some(ModRelation::Dependency)
        } else if pos(keys, d) < pos(keys, t) {
            Some(ModRelation::After)
        } else {
            None
        },
        ModRelation::Incompatibility => if keys.contains(t) {
            Some(ModRelation::Incompatibility)
        } else {
            prev
        },
    }
}

/// How one source's rule set for declarer `d` updates the issue recorded for
/// the pair `(d, t)`.
pub open spec fn apply_ruleset(
    prev: Option<ModRelation>,
    rules: Map<Seq<char>, ModRelation>,
    keys: Seq<Seq<char>>,
    d: Seq<char>,
    t: Seq<char>,
) -> Option<ModRelation> {
    if rules.contains_key(t) {
        step_issue(prev, rules[t], keys, d, t)
    } else {
        prev
    }
}

/// The issue recorded for the pair `(d, t)` after consulting every source in
/// order, for a declarer known to be present.
pub open spec fn pair_issue_rec(
    sources: Seq<Map<Seq<char>, Map<Seq<char>, ModRelation>>>,
    keys: Seq<Seq<char>>,
    d: Seq<char>,
    t: Seq<char>,
) -> Option<ModRelation>
    decreases sources.len(),
{
    if sources.len() == 0 {
        None
    } else {
        let prev = pair_issue_rec(sources.drop_last(), keys, d, t);
        let s = sources.last();
        if s.contains_key(d) {
            apply_ruleset(prev, s[d], keys, d, t)
        } else {
            prev
        }
    }
}

/// The issue recorded for the pair `(d, t)`: a package that is not in the
/// list declares no issues.
pub open spec fn pair_issue(
    sources: Seq<Map<Seq<char>, Map<Seq<char>, ModRelation>>>,
    keys: Seq<Seq<char>>,
    d: Seq<char>,
    t: Seq<char>,
) -> Option<ModRelation> {
    if keys.contains(d) {
        pair_issue_rec(sources, keys, d, t)
    } else {
        None
    }
}

/// Whether `d` has any currently-violated relation.
pub open spec fn has_issue(
    sources: Seq<Map<Seq<char>, Map<Seq<char>, ModRelation>>>,
    keys: Seq<Seq<char>>,
    d: Seq<char>,
) -> bool {
    exists|t: Seq<char>| pair_issue(sources, keys, d, t) is Some
}

/// Every issue of one declarer.
pub open spec fn issues_of(
    sources: Seq<Map<Seq<char>, Map<Seq<char>, ModRelation>>>,
    keys: Seq<Seq<char>>,
    d: Seq<char>,
) -> Map<Seq<char>, ModRelation> {
    Map::new(
        |t: Seq<char>| pair_issue(sources, keys, d, t) is Some,
        |t: Seq<char>| pair_issue(sources, keys, d, t)->0,
    )
}

/// The entire derived issue cache: exactly the packages with at least one
/// issue, each mapped to all of its issues.
pub open spec fn spec_issues(
    sources: Seq<Map<Seq<char>, Map<Seq<char>, ModRelation>>>,
    keys: Seq<Seq<char>>,
) -> Map<Seq<char>, Map<Seq<char>, ModRelation>> {
    Map::new(
        |d: Seq<char>| has_issue(sources, keys, d),
        |d: Seq<char>| issues_of(sources, keys, d),
    )
}

/// What each recorded issue kind certifies about the list order. An ordering
/// issue is only ever recorded with both packages present and in the
/// offending order, and a dependency issue only while the target is absent.
pub proof fn lemma_pair_issue_facts(
    sources: Seq<Map<Seq<char>, Map<Seq<char>, ModRelation>>>,
    keys: Seq<Seq<char>>,
    d: Seq<char>,
    t: Seq<char>,
)
    ensures
        pair_issue(sources, keys, d, t) is Some ==> keys.contains(d),
        pair_issue(sources, keys, d, t) == Some(ModRelation::Before) ==> keys.contains(t) && pos(
            keys,
            d,
        ) > pos(keys, t),
        pair_issue(sources, keys, d, t) == Some(ModRelation::After) ==> keys.contains(t) && pos(
            keys,
            d,
        ) < pos(keys, t),
        pair_issue(sources, keys, d, t) == Some(ModRelation::Dependency) ==> !keys.contains(t),
        pair_issue(sources, keys, d, t) == Some(ModRelation::Incompatibility) ==> keys.contains(t),
    decreases sources.len(),
{
    if keys.contains(d) && sources.len() > 0 {
        lemma_pair_issue_facts(sources.drop_last(), keys, d, t);
    }
}

/// The issue that phase one of a ruleset scan (pre-recording every declared
/// dependency) leaves for the pair `(d, t)`.
pub open spec fn dep_mark(
    prev: Option<ModRelation>,
    rules: Map<Seq<char>, ModRelation>,
    t: Seq<char>,
) -> Option<ModRelation> {
    if rules.contains_key(t) && rules[t] == ModRelation::Dependency {
        Some(ModRelation::Dependency)
    } else {
        prev
    }
}

/// Unfolds the pair fold over one appended source.
pub proof fn lemma_pair_issue_rec_push(
    sources: Seq<Map<Seq<char>, Map<Seq<char>, ModRelation>>>,
    m: Map<Seq<char>, Map<Seq<char>, ModRelation>>,
    keys: Seq<Seq<char>>,
    d: Seq<char>,
    t: Seq<char>,
)
    ensures
        pair_issue_rec(sources.push(m), keys, d, t) == (if m.contains_key(d) {
            apply_ruleset(pair_issue_rec(sources, keys, d, t), m[d], keys, d, t)
        } else {
            pair_issue_rec(sources, keys, d, t)
        }),
{
    assert(sources.push(m).drop_last() =~= sources);
    assert(sources.push(m).last() == m);
}

/// A cache whose slots all agree with the model, and which keeps no package
/// with an empty issue set, is the model's cache.
pub proof fn lemma_cache_complete(
    c: &ModListIssueCache,
    sources: Seq<Map<Seq<char>, Map<Seq<char>, ModRelation>>>,
    keys: Seq<Seq<char>>,
)
    requires
        c.wf(),
        forall|d: Seq<char>, t: Seq<char>|
            slot(c@, d, t) == pair_issue(sources, keys, d, t),
    ensures
        c@ == spec_issues(sources, keys),
{
    let m = spec_issues(sources, keys);
    assert forall|d: Seq<char>| c@.contains_key(d) implies m.contains_key(d) by {
        lemma_kv_map_contains(c.0.entries@, d);
        let w = choose|w: int| 0 <= w < c.0.entries@.len() && c.0.entries@[w].0@ == d;
        lemma_kv_map_index(c.0.entries@, w);
        let inner = c.0.entries@[w].1;
        assert(c@[d] == inner@);
        lemma_kv_map_index(inner.entries@, 0);
        let t0 = inner.entries@[0].0@;
        assert(inner@.contains_key(t0));
        assert(slot(c@, d, t0) is Some);
        assert(pair_issue(sources, keys, d, t0) is Some);
        assert(has_issue(sources, keys, d));
    }
    assert forall|d: Seq<char>| m.contains_key(d) implies c@.contains_key(d) by {
        let t = choose|t: Seq<char>| pair_issue(sources, keys, d, t) is Some;
        assert(slot(c@, d, t) is Some);
    }
    assert forall|d: Seq<char>| #[trigger] c@.contains_key(d) && m.contains_key(d) implies c@[d]
        =~= m[d] by {
        assert forall|t: Seq<char>| c@[d].contains_key(t) <==> m[d].contains_key(t) by {
            assert(slot(c@, d, t) == pair_issue(sources, keys, d, t));
            assert(m[d] == issues_of(sources, keys, d));
        }
        assert forall|t: Seq<char>| #[trigger] c@[d].contains_key(t) implies c@[d][t] == m[d][t] by {
            assert(slot(c@, d, t) == pair_issue(sources, keys, d, t));
            assert(m[d] == issues_of(sources, keys, d));
        }
    }
    assert(c@ =~~= m);
}

/// Scans one declarer's rule set against the list order and updates the
/// cache slots of that declarer to reflect it: dependencies are pre-recorded
/// unconditionally, then every relation whose target is present is resolved
/// by position.
#[verifier::loop_isolation(false)]
fn record_ruleset_issues(
    list: &ModList,
    issue_cache: &mut ModListIssueCache,
    d: &PackageId,
    rules: &KeyedVec<ModRelation>,
)
    requires
        list.wf(),
        old(issue_cache).wf(),
        rules.wf(),
        list.keys().contains(d@),
    ensures
        final(issue_cache).wf(),
        forall|t: Seq<char>|
            slot(final(issue_cache)@, d@, t) == apply_ruleset(
                slot(old(issue_cache)@, d@, t),
                rules@,
                list.keys(),
                d@,
                t,
            ),
        forall|d2: Seq<char>, t: Seq<char>|
            d2 != d@ ==> slot(final(issue_cache)@, d2, t) == slot(old(issue_cache)@, d2, t),
{
    let ghost base = issue_cache@;
    let ghost keys = list.keys();
    let n = rules.len();

    // Phase one: pre-record every dependency as an issue; present targets
    // are re-examined in phase two.
    let mut i: usize = 0;
    while i < n
        invariant
            issue_cache.wf(),
            i <= n,
            forall|t: Seq<char>|
                slot(issue_cache@, d@, t) == dep_mark(
                    slot(base, d@, t),
                    kv_map(rules.entries@.take(i as int)),
                    t,
                ),
            forall|d2: Seq<char>, t: Seq<char>|
                d2 != d@ ==> slot(issue_cache@, d2, t) == slot(base, d2, t),
        decreases n - i,
    {
        let t = rules.key_at(i);
        let rel = *rules.value_at(i);
        proof {
            assert(rules.entries@.take(i as int + 1).drop_last() =~= rules.entries@.take(i as int));
            assert(kv_map(rules.entries@.take(i as int + 1)) == kv_map(
                rules.entries@.take(i as int),
            ).insert(t@, rel));
            if kv_map(rules.entries@.take(i as int)).contains_key(t@) {
                lemma_kv_map_contains(rules.entries@.take(i as int), t@);
                let j = choose|j: int|
                    0 <= j < i && rules.entries@.take(i as int)[j].0@ == t@;
                assert(rules.entries@[j].0@ == rules.entries@[i as int].0@);
                assert(false);
            }
        }
        let ghost before_step = issue_cache@;
        if rel == ModRelation::Dependency {
            issue_cache.set_issue(d, t, ModRelation::Dependency);
        }
        proof {
            assert forall|t2: Seq<char>|
                slot(issue_cache@, d@, t2) == dep_mark(
                    slot(base, d@, t2),
                    kv_map(rules.entries@.take(i as int + 1)),
                    t2,
                ) by {
                if t2 == t@ {
                    assert(slot(before_step, d@, t2) == dep_mark(
                        slot(base, d@, t2),
                        kv_map(rules.entries@.take(i as int)),
                        t2,
                    ));
                } else {
                    assert(slot(issue_cache@, d@, t2) == slot(before_step, d@, t2));
                }
            }
        }
        i += 1;
    }
    proof {
        assert(rules.entries@.take(n as int) =~= rules.entries@);
    }

    // Phase two: resolve, for every target also present in the list, the
    // declared relation by the two packages' positions.
    let dp = match list.get_index_of(d) {
        Some(dp) => dp,
        None => {
            proof {
                assert(false);
            }
            0
        },
    };
    let mut i: usize = 0;
    while i < n
        invariant
            issue_cache.wf(),
            i <= n,
            forall|t: Seq<char>|
                slot(issue_cache@, d@, t) == (if kv_map(
                    rules.entries@.take(i as int),
                ).contains_key(t) {
                    step_issue(slot(base, d@, t), rules@[t], keys, d@, t)
                } else {
                    dep_mark(slot(base, d@, t), rules@, t)
                }),
            forall|d2: Seq<char>, t: Seq<char>|
                d2 != d@ ==> slot(issue_cache@, d2, t) == slot(base, d2, t),
        decreases n - i,
    {
        let t = rules.key_at(i);
        let rel = *rules.value_at(i);
        proof {
            assert(rules.entries@.take(i as int + 1).drop_last() =~= rules.entries@.take(i as int));
            assert(kv_map(rules.entries@.take(i as int + 1)) == kv_map(
                rules.entries@.take(i as int),
            ).insert(t@, rel));
            if kv_map(rules.entries@.take(i as int)).contains_key(t@) {
                lemma_kv_map_contains(rules.entries@.take(i as int), t@);
                let j = choose|j: int|
                    0 <= j < i && rules.entries@.take(i as int)[j].0@ == t@;
                assert(rules.entries@[j].0@ == rules.entries@[i as int].0@);
                assert(false);
            }
            lemma_kv_map_index(rules.entries@, i as int);
            assert(rules@.contains_key(t@) && rules@[t@] == rel);
        }
        let ghost before_step = issue_cache@;
        match list.get_index_of(t) {
            Some(tp) => {
                match rel {
                    ModRelation::Before => {
                        if dp > tp {
                            issue_cache.set_issue(d, t, ModRelation::Before);
                        }
                    },
                    ModRelation::After => {
                        if dp < tp {
                            issue_cache.set_issue(d, t, ModRelation::After);
                        }
                    },
                    ModRelation::Dependency => {
                        issue_cache.remove_issue(d, t);
                        if dp < tp {
                            issue_cache.set_issue(d, t, ModRelation::After);
                        }
                    },
                    ModRelation::Incompatibility => {
                        issue_cache.set_issue(d, t, ModRelation::Incompatibility);
                    },
                }
                proof {
                    assert(keys.contains(t@));
                    assert(pos(keys, t@) == tp as int);
                    assert(pos(keys, d@) == dp as int);
                }
            },
            None => {
                proof {
                    assert(!keys.contains(t@));
                }
            },
        }
        proof {
            assert forall|t2: Seq<char>|
                slot(issue_cache@, d@, t2) == (if kv_map(
                    rules.entries@.take(i as int + 1),
                ).contains_key(t2) {
                    step_issue(slot(base, d@, t2), rules@[t2], keys, d@, t2)
                } else {
                    dep_mark(slot(base, d@, t2), rules@, t2)
                }) by {
                if t2 == t@ {
                    assert(slot(before_step, d@, t2) == dep_mark(slot(base, d@, t2), rules@, t2));
                } else {
                    assert(slot(issue_cache@, d@, t2) == slot(before_step, d@, t2));
                    assert(kv_map(rules.entries@.take(i as int + 1)).contains_key(t2) == kv_map(
                        rules.entries@.take(i as int),
                    ).contains_key(t2));
                }
            }
        }
        i += 1;
    }
    proof {
        assert(rules.entries@.take(n as int) =~= rules.entries@);
        assert forall|t: Seq<char>|
            slot(issue_cache@, d@, t) == apply_ruleset(
                slot(base, d@, t),
                rules@,
                keys,
                d@,
                t,
            ) by {
            assert(slot(issue_cache@, d@, t) == (if kv_map(
                rules.entries@.take(n as int),
            ).contains_key(t) {
                step_issue(slot(base, d@, t), rules@[t], keys, d@, t)
            } else {
                dep_mark(slot(base, d@, t), rules@, t)
            }));
        }
    }
}

/// The declarer keys among the first `n` entries of one source.
pub open spec fn declared_upto(s: Seq<(PackageId, crate::rules::ModRules)>, n: int) -> Set<
    Seq<char>,
> {
    Set::new(|k: Seq<char>| exists|j: int| 0 <= j < n && s[j].0@ == k)
}

impl ModList {
    /// Clears and rebuilds the issue cache from this list's order and the
    /// rule database: the result is exactly the model's issue map, a pure
    /// function of the two inputs.
    #[verifier::loop_isolation(false)]
    pub fn find_list_issues(&self, db: &ModRuleDb, issue_cache: &mut ModListIssueCache)
        requires
            self.wf(),
            db.wf(),
        ensures
            final(issue_cache).wf(),
            final(issue_cache)@ == spec_issues(db.rules_view(), self.keys()),
    {
        let ghost views = db.rules_view();
        let ghost keys = self.keys();
        issue_cache.clear();
        let ns = db.0.len();
        let mut si: usize = 0;
        while si < ns
            invariant
                issue_cache.wf(),
                si <= ns,
                forall|d: Seq<char>, t: Seq<char>|
                    slot(issue_cache@, d, t) == pair_issue(views.take(si as int), keys, d, t),
            decreases ns - si,
        {
            let ghost src_entries = db.0@[si as int].1.entries@;
            let ghost cur = views[si as int];
            proof {
                assert(cur == kv_map(src_entries).map_values(|r: crate::rules::ModRules| r@.rules));
                assert(views.take(si as int).push(cur.restrict(declared_upto(src_entries, 0)))
                    =~= views.take(si as int).push(cur.restrict(Set::empty()))) by {
                    assert(declared_upto(src_entries, 0) =~= Set::<Seq<char>>::empty());
                }
                assert forall|d: Seq<char>, t: Seq<char>|
                    slot(issue_cache@, d, t) == pair_issue(
                        views.take(si as int).push(cur.restrict(declared_upto(src_entries, 0))),
                        keys,
                        d,
                        t,
                    ) by {
                    lemma_pair_issue_rec_push(
                        views.take(si as int),
                        cur.restrict(declared_upto(src_entries, 0)),
                        keys,
                        d,
                        t,
                    );
                    assert(!cur.restrict(declared_upto(src_entries, 0)).contains_key(d)) by {
                        assert(declared_upto(src_entries, 0) =~= Set::<Seq<char>>::empty());
                    }
                }
            }
            let nd = db.0[si].1.len();
            let mut di: usize = 0;
            while di < nd
                invariant
                    issue_cache.wf(),
                    di <= nd,
                    forall|d: Seq<char>, t: Seq<char>|
                        slot(issue_cache@, d, t) == pair_issue(
                            views.take(si as int).push(
                                cur.restrict(declared_upto(src_entries, di as int)),
                            ),
                            keys,
                            d,
                            t,
                        ),
                decreases nd - di,
            {
                let source = &db.0[si].1;
                let declarer = source.key_at(di);
                let ghost di0 = di as int;
                let ghost base_mid = issue_cache@;
                let ghost before_set = declared_upto(src_entries, di0);
                let ghost after_set = declared_upto(src_entries, di0 + 1);
                proof {
                    // the new declarer's key is fresh among the processed ones
                    assert forall|k: Seq<char>| after_set.contains(k) implies before_set.contains(
                        k,
                    ) || k == declarer@ by {
                        let j = choose|j: int| 0 <= j < di0 + 1 && src_entries[j].0@ == k;
                        if j < di0 {
                            assert(before_set.contains(k));
                        }
                    }
                    assert(after_set.contains(declarer@));
                    assert(forall|k: Seq<char>| before_set.contains(k) ==> after_set.contains(k));
                    if before_set.contains(declarer@) {
                        let j = choose|j: int| 0 <= j < di0 && src_entries[j].0@ == declarer@;
                        assert(src_entries[j].0@ == src_entries[di0].0@);
                        assert(false);
                    }
                    // the current source view holds this declarer's rules
                    lemma_kv_map_index(src_entries, di0);
                    assert(kv_map(src_entries).contains_key(declarer@));
                    assert(cur.contains_key(declarer@));
                    assert(cur[declarer@] == src_entries[di0].1@.rules);
                }
                if self.contains_key(declarer) {
                    record_ruleset_issues(self, issue_cache, declarer, &source.value_at(di).rules);
                }
                proof {
                    assert forall|d: Seq<char>, t: Seq<char>|
                        slot(issue_cache@, d, t) == pair_issue(
                            views.take(si as int).push(cur.restrict(after_set)),
                            keys,
                            d,
                            t,
                        ) by {
                        lemma_pair_issue_rec_push(
                            views.take(si as int),
                            cur.restrict(before_set),
                            keys,
                            d,
                            t,
                        );
                        lemma_pair_issue_rec_push(
                            views.take(si as int),
                            cur.restrict(after_set),
                            keys,
                            d,
                            t,
                        );
                        if d == declarer@ {
                            assert(!cur.restrict(before_set).contains_key(d));
                            if keys.contains(d) {
                                assert(slot(base_mid, d, t) == pair_issue_rec(
                                    views.take(si as int),
                                    keys,
                                    d,
                                    t,
                                ));
                                assert(cur.restrict(after_set)[d] == cur[declarer@]);
                                assert(slot(issue_cache@, d, t) == apply_ruleset(
                                    slot(base_mid, d, t),
                                    src_entries[di0].1@.rules,
                                    keys,
                                    d,
                                    t,
                                ));
                            } else {
                                assert(slot(issue_cache@, d, t) == slot(base_mid, d, t));
                            }
                        } else {
                            assert(slot(issue_cache@, d, t) == slot(base_mid, d, t));
                            assert(cur.restrict(before_set).contains_key(d) == cur.restrict(
                                after_set,
                            ).contains_key(d));
                            if cur.restrict(before_set).contains_key(d) {
                                assert(cur.restrict(before_set)[d] == cur.restrict(after_set)[d]);
                            }
                        }
                    }
                }
                di += 1;
            }
            proof {
                let full = declared_upto(src_entries, nd as int);
                assert(cur.restrict(full) =~= cur) by {
                    assert forall|k: Seq<char>| cur.contains_key(k) implies full.contains(k) by {
                        lemma_kv_map_contains(src_entries, k);
                        let j = choose|j: int|
                            0 <= j < src_entries.len() && src_entries[j].0@ == k;
                        assert(0 <= j < nd as int && src_entries[j].0@ == k);
                    }
                }
                assert(views.take(si as int).push(cur.restrict(full)) =~= views.take(si as int + 1));
            }
            si += 1;
        }
        proof {
            assert(views.take(ns as int) =~= views);
            lemma_cache_complete(issue_cache, views, keys);
        }
    }
}

} // verus!
