//! Crate-level laws of the detector, stated over its mathematical model.

use vstd::prelude::*;

use crate::detect::has_issue;
use crate::detect::pair_issue;
use crate::detect::pos;
use crate::detect::spec_issues;
use crate::rules::ModRelation;

verus! {

/// Whether a source declares a relation for the pair `(d, t)`.
pub open spec fn declared(
    sources: Seq<Map<Seq<char>, Map<Seq<char>, ModRelation>>>,
    si: int,
    d: Seq<char>,
    t: Seq<char>,
) -> bool {
    sources[si].contains_key(d) && sources[si][d].contains_key(t)
}

/// Whether one declared relation is satisfied by the list order `keys`, for
/// a declarer `d` present in the list: the exact negation of the condition
/// under which the detector records an issue for the pair. An ordering
/// relation is satisfied when the offending order does not hold, a
/// dependency when its target is present and not ordered after the
/// declarer, and an incompatibility only while the target is absent.
pub open spec fn relation_satisfied(
    rel: ModRelation,
    keys: Seq<Seq<char>>,
    d: Seq<char>,
    t: Seq<char>,
) -> bool {
    match rel {
        ModRelation::Before => keys.contains(t) ==> pos(keys, d) <= pos(keys, t),
        ModRelation::After => keys.contains(t) ==> pos(keys, d) >= pos(keys, t),
        ModRelation::Dependency => keys.contains(t) && pos(keys, d) >= pos(keys, t),
        ModRelation::Incompatibility => !keys.contains(t),
    }
}

/// Whether every relation any source declares for a present declarer is
/// satisfied by the list order.
pub open spec fn all_relations_satisfied(
    sources: Seq<Map<Seq<char>, Map<Seq<char>, ModRelation>>>,
    keys: Seq<Seq<char>>,
) -> bool {
    forall|si: int, d: Seq<char>, t: Seq<char>|
        0 <= si < sources.len() && keys.contains(d) && #[trigger] declared(sources, si, d, t)
            ==> relation_satisfied(sources[si][d][t], keys, d, t)
}

proof fn lemma_satisfied_pair_none(
    sources: Seq<Map<Seq<char>, Map<Seq<char>, ModRelation>>>,
    keys: Seq<Seq<char>>,
    d: Seq<char>,
    t: Seq<char>,
)
    requires
        all_relations_satisfied(sources, keys),
    ensures
        pair_issue(sources, keys, d, t) is None,
    decreases sources.len(),
{
    if keys.contains(d) && sources.len() > 0 {
        assert(all_relations_satisfied(sources.drop_last(), keys)) by {
            assert forall|si: int, d2: Seq<char>, t2: Seq<char>|
                0 <= si < sources.drop_last().len() && keys.contains(d2) && #[trigger] declared(
                    sources.drop_last(),
                    si,
                    d2,
                    t2,
                ) implies relation_satisfied(
                sources.drop_last()[si][d2][t2],
                keys,
                d2,
                t2,
            ) by {
                assert(declared(sources, si, d2, t2));
            }
        }
        lemma_satisfied_pair_none(sources.drop_last(), keys, d, t);
        let s = sources.last();
        if s.contains_key(d) && s[d].contains_key(t) {
            assert(declared(sources, sources.len() - 1, d, t));
        }
    }
}

/// Detection is deterministic: for one fixed database and list order, every
/// run of the detector yields the same issue cache, whatever cache contents
/// each run started from.
pub proof fn lemma_detection_deterministic(
    sources: Seq<Map<Seq<char>, Map<Seq<char>, ModRelation>>>,
    keys: Seq<Seq<char>>,
    c1: Map<Seq<char>, Map<Seq<char>, ModRelation>>,
    c2: Map<Seq<char>, Map<Seq<char>, ModRelation>>,
)
    requires
        c1 == spec_issues(sources, keys),
        c2 == spec_issues(sources, keys),
    ensures
        c1 == c2,
{
}

proof fn lemma_incompatible_pair_issue(
    sources: Seq<Map<Seq<char>, Map<Seq<char>, ModRelation>>>,
    keys: Seq<Seq<char>>,
    d: Seq<char>,
    t: Seq<char>,
)
    requires
        keys.contains(d),
        keys.contains(t),
        exists|si: int| 0 <= si < sources.len() && #[trigger] declared(sources, si, d, t),
        forall|si: int|
            0 <= si < sources.len() && #[trigger] declared(sources, si, d, t)
                ==> sources[si][d][t] == ModRelation::Incompatibility,
    ensures
        pair_issue(sources, keys, d, t) == Some(ModRelation::Incompatibility),
    decreases sources.len(),
{
    let w = choose|si: int| 0 <= si < sources.len() && #[trigger] declared(sources, si, d, t);
    let s = sources.last();
    if s.contains_key(d) && s[d].contains_key(t) {
        assert(declared(sources, sources.len() - 1, d, t));
    } else {
        assert(w < sources.len() - 1);
        assert(declared(sources.drop_last(), w, d, t));
        assert forall|si: int|
            0 <= si < sources.drop_last().len() && #[trigger] declared(
                sources.drop_last(),
                si,
                d,
                t,
            ) implies sources.drop_last()[si][d][t] == ModRelation::Incompatibility by {
            assert(declared(sources, si, d, t));
        }
        lemma_incompatible_pair_issue(sources.drop_last(), keys, d, t);
    }
}

/// An incompatibility is never auto-resolved. If the only relation any
/// source declares for the pair `(d, t)` is an incompatibility, and both
/// packages stand in a list order `keys0`, then for every order `keys1` a
/// repair can reach from it (repairs only ever add packages, never drop
/// them), the detector still reports the pair: the cache can never become
/// empty, so the repair loop's result must be failure.
pub proof fn lemma_incompatibility_never_resolved(
    sources: Seq<Map<Seq<char>, Map<Seq<char>, ModRelation>>>,
    keys0: Seq<Seq<char>>,
    keys1: Seq<Seq<char>>,
    d: Seq<char>,
    t: Seq<char>,
)
    requires
        keys0.contains(d),
        keys0.contains(t),
        forall|k: Seq<char>| #[trigger] keys0.contains(k) ==> keys1.contains(k),
        exists|si: int| 0 <= si < sources.len() && #[trigger] declared(sources, si, d, t),
        forall|si: int|
            0 <= si < sources.len() && #[trigger] declared(sources, si, d, t)
                ==> sources[si][d][t] == ModRelation::Incompatibility,
    ensures
        pair_issue(sources, keys1, d, t) == Some(ModRelation::Incompatibility),
        spec_issues(sources, keys1) != Map::<Seq<char>, Map<Seq<char>, ModRelation>>::empty(),
{
    lemma_incompatible_pair_issue(sources, keys1, d, t);
    assert(has_issue(sources, keys1, d));
    assert(spec_issues(sources, keys1).contains_key(d));
}

/// No false positives: when every relation any source declares for a
/// present declarer is satisfied by the list order, the detector finds
/// nothing.
pub proof fn lemma_no_false_positives(
    sources: Seq<Map<Seq<char>, Map<Seq<char>, ModRelation>>>,
    keys: Seq<Seq<char>>,
)
    requires
        all_relations_satisfied(sources, keys),
    ensures
        spec_issues(sources, keys) == Map::<Seq<char>, Map<Seq<char>, ModRelation>>::empty(),
{
    assert forall|d: Seq<char>| !has_issue(sources, keys, d) by {
        if has_issue(sources, keys, d) {
            let t = choose|t: Seq<char>| pair_issue(sources, keys, d, t) is Some;
            lemma_satisfied_pair_none(sources, keys, d, t);
        }
    }
    assert(spec_issues(sources, keys) =~= Map::<Seq<char>, Map<Seq<char>, ModRelation>>::empty());
}

} // verus!
