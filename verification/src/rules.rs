//! Relations, per-package rule sets, and the rule database.

use vstd::prelude::*;

use crate::ids::ModdbType;
use crate::ids::SourceKey;
use crate::kv::kv_map;
use crate::kv::KeyedVec;

verus! {

/// A directed constraint one package declares toward another.
#[derive(Clone, Copy, PartialEq, Eq, Structural, Debug)]
pub enum ModRelation {
    Before,
    After,
    Dependency,
    Incompatibility,
}

/// The mathematical value of one package's rule set.
pub ghost struct RulesView {
    pub start_anchor: bool,
    pub end_anchor: bool,
    pub rules: Map<Seq<char>, ModRelation>,
}

/// The set of relations one package declares toward others, plus two
/// positional-anchor flags. The anchors are carried in the data model but no
/// detector or repair logic consumes them.
pub struct ModRules {
    pub start_anchor: bool,
    pub end_anchor: bool,
    pub rules: KeyedVec<ModRelation>,
}

impl View for ModRules {
    type V = RulesView;

    open spec fn view(&self) -> RulesView {
        RulesView {
            start_anchor: self.start_anchor,
            end_anchor: self.end_anchor,
            rules: self.rules@,
        }
    }
}

impl ModRules {
    pub open spec fn wf(&self) -> bool {
        self.rules.wf()
    }

    /// An empty rule set without anchors.
    pub fn new() -> (r: Self)
        ensures
            r.wf(),
            !r.start_anchor,
            !r.end_anchor,
            r@.rules == Map::<Seq<char>, ModRelation>::empty(),
    {
        ModRules { start_anchor: false, end_anchor: false, rules: KeyedVec::new() }
    }

    /// Merges `other` into `self`: the anchors are overwritten by `other`'s
    /// values, and `other`'s relations are unioned in, winning on key
    /// collisions.
    #[verifier::loop_isolation(false)]
    pub fn merge(&mut self, other: Self)
        requires
            old(self).wf(),
        ensures
            final(self).wf(),
            final(self).start_anchor == other.start_anchor,
            final(self).end_anchor == other.end_anchor,
            final(self)@.rules == old(self)@.rules.union_prefer_right(other@.rules),
    {
        self.start_anchor = other.start_anchor;
        self.end_anchor = other.end_anchor;
        let n = other.rules.len();
        let mut i: usize = 0;
        while i < n
            invariant
                self.rules.wf(),
                self.start_anchor == other.start_anchor,
                self.end_anchor == other.end_anchor,
                i <= n,
                self.rules@ =~= old(self).rules@.union_prefer_right(
                    kv_map(other.rules.entries@.take(i as int)),
                ),
            decreases n - i,
        {
            let k = other.rules.key_at(i).clone();
            let v = *other.rules.value_at(i);
            proof {
                let pre = other.rules.entries@.take(i as int);
                let post = other.rules.entries@.take(i as int + 1);
                assert(post.drop_last() =~= pre);
                assert(post.last() == other.rules.entries@[i as int]);
                assert(kv_map(post) == kv_map(pre).insert(k@, v));
            }
            self.rules.insert(k, v);
            assert(self.rules@ =~= old(self).rules@.union_prefer_right(
                kv_map(other.rules.entries@.take(i as int + 1)),
            ));
            i += 1;
        }
        proof {
            assert(other.rules.entries@.take(n as int) =~= other.rules.entries@);
        }
    }
}

/// Whether every source identifier appears at most once.
pub open spec fn db_unique(s: Seq<(ModdbType, KeyedVec<ModRules>)>) -> bool {
    forall|i: int, j: int| 0 <= i < j < s.len() ==> s[i].0@ != s[j].0@
}

/// An ordered collection of named rule sources. Each source maps declaring
/// packages to their rule sets; sources are always consulted in aggregate by
/// the detector, so a relation declared by any source is binding.
pub struct ModRuleDb(pub Vec<(ModdbType, KeyedVec<ModRules>)>);

impl ModRuleDb {
    /// The source identifiers in entry order.
    pub open spec fn source_keys(&self) -> Seq<SourceKey> {
        self.0@.map_values(|s: (ModdbType, KeyedVec<ModRules>)| s.0@)
    }

    pub open spec fn wf(&self) -> bool {
        &&& db_unique(self.0@)
        &&& forall|i: int| 0 <= i < self.0@.len() ==> (#[trigger] self.0@[i]).1.wf()
        &&& forall|i: int, j: int|
            0 <= i < self.0@.len() && 0 <= j < self.0@[i].1.entries@.len() ==> (
            #[trigger] self.0@[i].1.entries@[j]).1.wf()
    }

    /// The relations each source declares, per declaring package, in source
    /// order: the entire input of the violation detector.
    pub open spec fn rules_view(&self) -> Seq<Map<Seq<char>, Map<Seq<char>, ModRelation>>> {
        self.0@.map_values(
            |s: (ModdbType, KeyedVec<ModRules>)|
                kv_map(s.1.entries@).map_values(|r: ModRules| r@.rules),
        )
    }

    pub fn new() -> (r: Self)
        ensures
            r.wf(),
            r.0@.len() == 0,
    {
        ModRuleDb(Vec::new())
    }

    /// Inserts or replaces the rule sets registered under `source`: an
    /// existing source keeps its position and has its rule sets replaced, a
    /// new source is appended.
    pub fn add_db(&mut self, source: ModdbType, rules: KeyedVec<ModRules>)
        requires
            old(self).wf(),
            rules.wf(),
            forall|j: int| 0 <= j < rules.entries@.len() ==> (#[trigger] rules.entries@[j]).1.wf(),
        ensures
            final(self).wf(),
            (exists|i: int|
                0 <= i < old(self).0@.len() && old(self).0@[i].0@ == source@) ==> {
                let i = choose|i: int|
                    0 <= i < old(self).0@.len() && old(self).0@[i].0@ == source@;
                final(self).0@ =~= old(self).0@.update(i, (source, rules))
            },
            (forall|i: int|
                0 <= i < old(self).0@.len() ==> old(self).0@[i].0@ != source@)
                ==> final(self).0@ =~= old(self).0@.push((source, rules)),
    {
        let n = self.0.len();
        let mut i: usize = 0;
        #[verifier::loop_isolation(false)]
        while i < n
            invariant
                self == old(self),
                i <= n,
                forall|j: int| 0 <= j < i ==> self.0@[j].0@ != source@,
            decreases n - i,
        {
            let hit = self.0[i].0 == source;
            if hit {
                proof {
                    assert(old(self).0@[i as int].0@ == source@);
                    if exists|w: int|
                        0 <= w < old(self).0@.len() && old(self).0@[w].0@ == source@ {
                        let w = choose|w: int|
                            0 <= w < old(self).0@.len() && old(self).0@[w].0@ == source@;
                        assert(w == i as int);
                    }
                }
                self.0.set(i, (source, rules));
                proof {
                    assert(db_unique(self.0@));
                }
                return ;
            }
            i += 1;
        }
        self.0.push((source, rules));
        proof {
            assert(db_unique(self.0@));
        }
    }
}

} // verus!
