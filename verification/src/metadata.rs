//! Per-package metadata as the rule loader consumes it: plain values,
//! already decoded from whatever format the surrounding system reads.

use vstd::prelude::*;

use crate::ids::ModdbType;
use crate::ids::PackageId;
use crate::ids::SourceKey;
use crate::kv::kv_map;
use crate::kv::lemma_kv_map_contains;
use crate::kv::lemma_kv_map_index;
use crate::kv::lemma_kv_map_remove_absent;
use crate::kv::KeyedVec;
use crate::rules::ModRelation;
use crate::rules::ModRuleDb;
use crate::rules::ModRules;

verus! {

/// A game version reduced to what version filtering compares: its two
/// leading components, as text.
pub struct VersionKey {
    pub major: String,
    pub minor: String,
}

impl View for VersionKey {
    type V = (Seq<char>, Seq<char>);

    open spec fn view(&self) -> (Seq<char>, Seq<char>) {
        (self.major@, self.minor@)
    }
}

impl Clone for VersionKey {
    fn clone(&self) -> (r: Self)
        ensures
            r@ == self@,
    {
        VersionKey { major: self.major.clone(), minor: self.minor.clone() }
    }
}

impl PartialEq for VersionKey {
    fn eq(&self, other: &VersionKey) -> (r: bool) {
        self.major == other.major && self.minor == other.minor
    }
}

impl vstd::std_specs::cmp::PartialEqSpecImpl for VersionKey {
    open spec fn obeys_eq_spec() -> bool {
        true
    }

    open spec fn eq_spec(&self, other: &VersionKey) -> bool {
        self@ == other@
    }
}

/// The names credited as a package's authors.
pub struct Authors {
    pub list: Vec<String>,
}

/// Packages the declarer asks to load before.
pub struct LoadBefore {
    pub list: Vec<PackageId>,
}

/// Packages the declarer asks to load after.
pub struct LoadAfter {
    pub list: Vec<PackageId>,
}

/// Packages the declarer cannot run beside.
pub struct IncompatibleWith {
    pub list: Vec<PackageId>,
}

/// One declared dependency; the display name and the link are irrelevant to
/// the solver and only carried through.
pub struct ModDependencyInfo {
    pub package_id: PackageId,
    pub display_name: String,
    pub steam_workshop_url: Option<String>,
}

/// The declared dependencies.
pub struct ModDependencies {
    pub list: Vec<ModDependencyInfo>,
}

/// The game versions a package declares support for.
pub struct SupportedVersions {
    pub list: Vec<VersionKey>,
}

/// Version-specific load-before requests.
pub struct LoadBeforeByVersion {
    pub map: Vec<(VersionKey, Vec<PackageId>)>,
}

/// Version-specific load-after requests.
pub struct LoadAfterByVersion {
    pub map: Vec<(VersionKey, Vec<PackageId>)>,
}

/// Version-specific dependencies.
pub struct ModDependenciesByVersion {
    pub map: Vec<(VersionKey, Vec<ModDependencyInfo>)>,
}

/// Version-specific incompatibilities.
pub struct IncompatibleWithByVersion {
    pub map: Vec<(VersionKey, Vec<PackageId>)>,
}

/// Everything a package declares about itself that the manager reads.
pub struct ModMetaData {
    pub name: Option<String>,
    pub author: Option<Vec<String>>,
    pub authors: Option<Authors>,
    pub description: String,
    pub supported_versions: Option<SupportedVersions>,
    pub package_id: PackageId,
    pub load_before: LoadBefore,
    pub load_before_by_version: LoadBeforeByVersion,
    pub force_load_before: LoadBefore,
    pub load_after: LoadAfter,
    pub load_after_by_version: LoadAfterByVersion,
    pub force_load_after: LoadAfter,
    pub mod_dependencies: ModDependencies,
    pub mod_dependencies_by_version: ModDependenciesByVersion,
    pub incompatible_with: IncompatibleWith,
    pub incompatible_with_by_version: IncompatibleWithByVersion,
}

/// Whether a name stands in a sequence of strings.
pub open spec fn has_string(v: Seq<String>, s: Seq<char>) -> bool {
    exists|i: int| 0 <= i < v.len() && v[i]@ == s
}

/// Whether a version stands in a sequence of version keys.
pub open spec fn has_version(v: Seq<VersionKey>, k: (Seq<char>, Seq<char>)) -> bool {
    exists|i: int| 0 <= i < v.len() && v[i]@ == k
}

/// Whether a package declares support for the given game version: a package
/// that names no supported versions supports every version.
pub open spec fn spec_supports(md: &ModMetaData, v: (Seq<char>, Seq<char>)) -> bool {
    match md.supported_versions {
        None => true,
        Some(sv) => has_version(sv.list@, v),
    }
}

fn vec_has_string(v: &Vec<String>, s: &String) -> (r: bool)
    ensures
        r == has_string(v@, s@),
{
    let n = v.len();
    let mut i: usize = 0;
    while i < n
        invariant
            i <= n,
            n == v@.len(),
            forall|j: int| 0 <= j < i ==> v@[j]@ != s@,
        decreases n - i,
    {
        if v[i] == *s {
            return true;
        }
        i += 1;
    }
    false
}

/// Appends the names in `from` to `out`, skipping those already there.
fn append_unique_strings(out: &mut Vec<String>, from: &Vec<String>)
    requires
        forall|i: int, j: int| 0 <= i < j < old(out)@.len() ==> old(out)@[i]@ != old(out)@[j]@,
    ensures
        forall|i: int, j: int| 0 <= i < j < final(out)@.len() ==> final(out)@[i]@ != final(out)@[j]@,
        forall|s: Seq<char>|
            has_string(final(out)@, s) <==> (has_string(old(out)@, s) || has_string(from@, s)),
{
    let n = from.len();
    let mut i: usize = 0;
    while i < n
        invariant
            i <= n,
            n == from@.len(),
            forall|a: int, b: int| 0 <= a < b < out@.len() ==> out@[a]@ != out@[b]@,
            forall|s: Seq<char>|
                has_string(out@, s) <==> (has_string(old(out)@, s) || has_string(
                    from@.take(i as int),
                    s,
                )),
        decreases n - i,
    {
        let ghost pre = out@;
        if !vec_has_string(out, &from[i]) {
            out.push(from[i].clone());
        }
        proof {
            assert forall|s: Seq<char>|
                has_string(out@, s) <==> (has_string(old(out)@, s) || has_string(
                    from@.take(i as int + 1),
                    s,
                )) by {
                if has_string(out@, s) {
                    let w = choose|w: int| 0 <= w < out@.len() && out@[w]@ == s;
                    if w < pre.len() {
                        assert(has_string(pre, s));
                    } else {
                        assert(out@[w]@ == from@[i as int]@);
                        assert(from@.take(i as int + 1)[i as int]@ == from@[i as int]@);
                    }
                }
                if has_string(pre, s) {
                    let w = choose|w: int| 0 <= w < pre.len() && pre[w]@ == s;
                    assert(out@[w]@ == s);
                }
                if has_string(from@.take(i as int + 1), s) {
                    let w = choose|w: int|
                        0 <= w < from@.take(i as int + 1).len() && (#[trigger] from@.take(
                            i as int + 1,
                        )[w])@ == s;
                    if w < i {
                        assert(from@.take(i as int)[w]@ == s);
                        assert(has_string(from@.take(i as int), s));
                    } else {
                        assert(from@[i as int]@ == s);
                        if has_string(pre, s) {
                        } else {
                            assert(out@[out@.len() - 1]@ == s);
                        }
                    }
                }
                if has_string(from@.take(i as int), s) {
                    let w = choose|w: int| 0 <= w < i && from@.take(i as int)[w]@ == s;
                    assert(from@.take(i as int + 1)[w]@ == s);
                }
            }
        }
        i += 1;
    }
    proof {
        assert(from@.take(n as int) =~= from@);
    }
}

impl ModMetaData {
    /// The union of the two author fields, without duplicate names.
    pub fn get_mod_authors(&self) -> (r: Vec<String>)
        ensures
            forall|i: int, j: int| 0 <= i < j < r@.len() ==> r@[i]@ != r@[j]@,
            forall|s: Seq<char>|
                has_string(r@, s) <==> ((self.author is Some && has_string(self.author->0@, s)) || (
                self.authors is Some && has_string(self.authors->0.list@, s))),
    {
        let mut real_authors: Vec<String> = Vec::new();
        let ghost m0 = real_authors@;
        if let Some(author) = &self.author {
            append_unique_strings(&mut real_authors, author);
        }
        let ghost m1 = real_authors@;
        if let Some(authors) = &self.authors {
            append_unique_strings(&mut real_authors, &authors.list);
            proof {
                assert(self.authors->0 == *authors);
                assert forall|s: Seq<char>|
                    has_string(real_authors@, s) <==> (has_string(m1, s) || has_string(
                        authors.list@,
                        s,
                    )) by {
                    // naming the three membership terms lets the call's
                    // quantified postcondition apply to this s
                    let g1 = has_string(real_authors@, s);
                    let g2 = has_string(m1, s);
                    let g3 = has_string(authors.list@, s);
                }
            }
        }
        proof {
            assert forall|s: Seq<char>|
                has_string(real_authors@, s) <==> ((self.author is Some && has_string(
                    self.author->0@,
                    s,
                )) || (self.authors is Some && has_string(self.authors->0.list@, s))) by {
                assert(!has_string(m0, s)) by {
                    if has_string(m0, s) {
                        let w = choose|w: int| 0 <= w < m0.len() && m0[w]@ == s;
                    }
                }
                assert(has_string(m1, s) <==> (self.author is Some && has_string(
                    self.author->0@,
                    s,
                )));
                if self.authors is Some {
                    assert(has_string(real_authors@, s) <==> (has_string(m1, s) || has_string(
                        self.authors->0.list@,
                        s,
                    )));
                } else {
                    assert(real_authors@ == m1);
                }
            }
        }
        real_authors
    }

    /// Whether this package supports the given game version.
    #[verifier::loop_isolation(false)]
    pub fn does_mod_support_this_version(&self, version: &VersionKey) -> (r: bool)
        ensures
            r == spec_supports(self, version@),
    {
        if let Some(supported) = &self.supported_versions {
            let n = supported.list.len();
            let mut i: usize = 0;
            while i < n
                invariant
                    i <= n,
                    forall|j: int| 0 <= j < i ==> supported.list@[j]@ != version@,
                decreases n - i,
            {
                if supported.list[i] == *version {
                    proof {
                        assert(supported.list@[i as int]@ == version@);
                        assert(has_version(supported.list@, version@));
                    }
                    return true;
                }
                i += 1;
            }
            proof {
                if has_version(supported.list@, version@) {
                    let w = choose|w: int|
                        0 <= w < supported.list@.len() && supported.list@[w]@ == version@;
                    assert(false);
                }
            }
            return false;
        }
        true
    }
}

/// The map that recording `rel` for each identifier in `ids`, in order,
/// leaves behind: later entries win on collisions.
pub open spec fn add_ids(
    m: Map<Seq<char>, ModRelation>,
    ids: Seq<PackageId>,
    rel: ModRelation,
) -> Map<Seq<char>, ModRelation>
    decreases ids.len(),
{
    if ids.len() == 0 {
        m
    } else {
        add_ids(m, ids.drop_last(), rel).insert(ids.last()@, rel)
    }
}

/// The map that recording a dependency on each listed package leaves behind.
pub open spec fn add_dependency_ids(
    m: Map<Seq<char>, ModRelation>,
    infos: Seq<ModDependencyInfo>,
) -> Map<Seq<char>, ModRelation>
    decreases infos.len(),
{
    if infos.len() == 0 {
        m
    } else {
        add_dependency_ids(m, infos.drop_last()).insert(
            infos.last().package_id@,
            ModRelation::Dependency,
        )
    }
}

/// The value registered under the first matching version key, if any.
pub open spec fn vmap_lookup<V>(s: Seq<(VersionKey, V)>, v: (Seq<char>, Seq<char>)) -> Option<V>
    decreases s.len(),
{
    if s.len() == 0 {
        None
    } else if s.first().0@ == v {
        Some(s.first().1)
    } else {
        vmap_lookup(s.drop_first(), v)
    }
}

fn lookup_by_version<'a, V>(map: &'a Vec<(VersionKey, V)>, v: &VersionKey) -> (r: Option<&'a V>)
    ensures
        match r {
            Some(x) => vmap_lookup(map@, v@) == Some(*x),
            None => vmap_lookup(map@, v@) is None,
        },
{
    let n = map.len();
    let mut i: usize = 0;
    proof {
        assert(map@.skip(0) =~= map@);
    }
    while i < n
        invariant
            i <= n,
            n == map@.len(),
            vmap_lookup(map@, v@) == vmap_lookup(map@.skip(i as int), v@),
        decreases n - i,
    {
        proof {
            assert(map@.skip(i as int).first() == map@[i as int]);
            assert(map@.skip(i as int).drop_first() =~= map@.skip(i as int + 1));
        }
        if map[i].0 == *v {
            return Some(&map[i].1);
        }
        i += 1;
    }
    proof {
        assert(map@.skip(n as int) =~= Seq::<(VersionKey, V)>::empty());
    }
    None
}

/// Records `rel` under every identifier in `ids`, in order.
fn extend_with_ids(rules: &mut KeyedVec<ModRelation>, ids: &Vec<PackageId>, rel: ModRelation)
    requires
        old(rules).wf(),
    ensures
        final(rules).wf(),
        final(rules)@ == add_ids(old(rules)@, ids@, rel),
{
    let n = ids.len();
    let mut i: usize = 0;
    while i < n
        invariant
            rules.wf(),
            i <= n,
            n == ids@.len(),
            rules@ == add_ids(old(rules)@, ids@.take(i as int), rel),
        decreases n - i,
    {
        proof {
            assert(ids@.take(i as int + 1).drop_last() =~= ids@.take(i as int));
            assert(ids@.take(i as int + 1).last() == ids@[i as int]);
        }
        rules.insert(ids[i].clone(), rel);
        i += 1;
    }
    proof {
        assert(ids@.take(n as int) =~= ids@);
    }
}

/// Records a dependency under every listed package, in order.
fn extend_with_dependencies(rules: &mut KeyedVec<ModRelation>, infos: &Vec<ModDependencyInfo>)
    requires
        old(rules).wf(),
    ensures
        final(rules).wf(),
        final(rules)@ == add_dependency_ids(old(rules)@, infos@),
{
    let n = infos.len();
    let mut i: usize = 0;
    while i < n
        invariant
            rules.wf(),
            i <= n,
            n == infos@.len(),
            rules@ == add_dependency_ids(old(rules)@, infos@.take(i as int)),
        decreases n - i,
    {
        proof {
            assert(infos@.take(i as int + 1).drop_last() =~= infos@.take(i as int));
            assert(infos@.take(i as int + 1).last() == infos@[i as int]);
        }
        rules.insert(infos[i].package_id.clone(), ModRelation::Dependency);
        i += 1;
    }
    proof {
        assert(infos@.take(n as int) =~= infos@);
    }
}

/// The relations one package contributes toward the rule database for the
/// given game version: its load-before requests (general, version-specific
/// and forced) as `Before`, then its load-after requests as `After`, then
/// its dependencies, then its incompatibilities, each later group
/// overwriting earlier entries for the same target.
pub open spec fn contributed_rules(md: &ModMetaData, v: (Seq<char>, Seq<char>)) -> Map<
    Seq<char>,
    ModRelation,
> {
    let m = add_ids(Map::empty(), md.load_before.list@, ModRelation::Before);
    let m = match vmap_lookup(md.load_before_by_version.map@, v) {
        Some(ids) => add_ids(m, ids@, ModRelation::Before),
        None => m,
    };
    let m = add_ids(m, md.force_load_before.list@, ModRelation::Before);
    let m = add_ids(m, md.load_after.list@, ModRelation::After);
    let m = match vmap_lookup(md.load_after_by_version.map@, v) {
        Some(ids) => add_ids(m, ids@, ModRelation::After),
        None => m,
    };
    let m = add_ids(m, md.force_load_after.list@, ModRelation::After);
    let m = add_dependency_ids(m, md.mod_dependencies.list@);
    let m = match vmap_lookup(md.mod_dependencies_by_version.map@, v) {
        Some(infos) => add_dependency_ids(m, infos@),
        None => m,
    };
    let m = add_ids(m, md.incompatible_with.list@, ModRelation::Incompatibility);
    let m = match vmap_lookup(md.incompatible_with_by_version.map@, v) {
        Some(ids) => add_ids(m, ids@, ModRelation::Incompatibility),
        None => m,
    };
    m
}

/// How one source's rule sets change when `contributed` is merged in for
/// `declarer`: every other package's entry — anchors included — is left
/// exactly as it was; the declarer's entry keeps its position, identifier
/// value and anchors and has its relations overwritten by the contributed
/// ones, or is appended anchorless if it did not exist.
pub open spec fn src_after_merge(
    s0: KeyedVec<ModRules>,
    s1: KeyedVec<ModRules>,
    declarer: Seq<char>,
    contributed: Map<Seq<char>, ModRelation>,
) -> bool {
    let e0 = s0.entries@;
    let e1 = s1.entries@;
    if exists|j: int| 0 <= j < e0.len() && e0[j].0@ == declarer {
        let j = choose|j: int| 0 <= j < e0.len() && e0[j].0@ == declarer;
        &&& e1.len() == e0.len()
        &&& forall|i: int| 0 <= i < e0.len() && i != j ==> e1[i] == e0[i]
        &&& e1[j].0 == e0[j].0
        &&& e1[j].1.start_anchor == e0[j].1.start_anchor
        &&& e1[j].1.end_anchor == e0[j].1.end_anchor
        &&& e1[j].1.rules@ == e0[j].1.rules@.union_prefer_right(contributed)
    } else {
        &&& e1.len() == e0.len() + 1
        &&& forall|i: int| 0 <= i < e0.len() ==> e1[i] == e0[i]
        &&& e1.last().0@ == declarer
        &&& !e1.last().1.start_anchor
        &&& !e1.last().1.end_anchor
        &&& e1.last().1.rules@ == contributed
    }
}

/// How one call that merges `contributed` for `declarer` into the
/// built-from-metadata source changes a rule database: the source is
/// created at the end if absent, every other source is left exactly as it
/// was, and within the built-from-metadata source only the declarer's entry
/// changes, as [`src_after_merge`] says.
pub open spec fn db_after_merge(
    db0: &ModRuleDb,
    db1: &ModRuleDb,
    declarer: Seq<char>,
    contributed: Map<Seq<char>, ModRelation>,
) -> bool {
    let views0 = db0.rules_view();
    let keys0 = db0.source_keys();
    if keys0.contains(SourceKey::Builtin) {
        let b = keys0.index_of_first(SourceKey::Builtin)->0;
        let prev = if views0[b].contains_key(declarer) {
            views0[b][declarer]
        } else {
            Map::<Seq<char>, ModRelation>::empty()
        };
        &&& db1.rules_view() =~~= views0.update(
            b,
            views0[b].insert(declarer, prev.union_prefer_right(contributed)),
        )
        &&& db1.source_keys() =~= keys0
        &&& db1.0@.len() == db0.0@.len()
        &&& forall|i: int| 0 <= i < db0.0@.len() && i != b ==> db1.0@[i] == db0.0@[i]
        &&& db1.0@[b].0 == db0.0@[b].0
        &&& src_after_merge(db0.0@[b].1, db1.0@[b].1, declarer, contributed)
    } else {
        &&& db1.rules_view() =~~= views0.push(
            Map::<Seq<char>, Map<Seq<char>, ModRelation>>::empty().insert(declarer, contributed),
        )
        &&& db1.source_keys() =~= keys0.push(SourceKey::Builtin)
        &&& db1.0@.len() == db0.0@.len() + 1
        &&& forall|i: int| 0 <= i < db0.0@.len() ==> db1.0@[i] == db0.0@[i]
        &&& db1.0@.last().0@ == SourceKey::Builtin
        &&& db1.0@.last().1.entries@.len() == 1
        &&& db1.0@.last().1.entries@[0].0@ == declarer
        &&& !db1.0@.last().1.entries@[0].1.start_anchor
        &&& !db1.0@.last().1.entries@[0].1.end_anchor
        &&& db1.0@.last().1.entries@[0].1.rules@ == contributed
    }
}

impl ModRuleDb {
    /// Merges the relations one package contributes into the
    /// built-from-metadata source, creating that source, and the package's
    /// entry in it, as needed.
    #[verifier::loop_isolation(false)]
    pub fn merge_builtin_rules(&mut self, declarer: &PackageId, contributed: KeyedVec<ModRelation>)
        requires
            old(self).wf(),
            contributed.wf(),
        ensures
            final(self).wf(),
            db_after_merge(old(self), final(self), declarer@, contributed@),
    {
        let ghost views0 = old(self).rules_view();
        let ghost keys0 = old(self).source_keys();
        let n = self.0.len();
        let mut b: usize = 0;
        while b < n
            invariant
                self == old(self),
                b <= n,
                forall|j: int| 0 <= j < b ==> self.0@[j].0@ != SourceKey::Builtin,
            decreases n - b,
        {
            let hit = self.0[b].0 == ModdbType::ModBuiltRules;
            if hit {
                proof {
                    assert(keys0[b as int] == SourceKey::Builtin);
                    keys0.index_of_first_ensures(SourceKey::Builtin);
                    assert(keys0.index_of_first(SourceKey::Builtin) == Some(b as int));
                }
                let (skey, mut src) = self.0.remove(b);
                let ghost src0 = src;
                match src.index_of(declarer) {
                    Some(j) => {
                        proof {
                            lemma_kv_map_index(src.entries@, j as int);
                        }
                        let ghost pre = src.entries@;
                        let (dk, mut r) = src.remove_at(j);
                        let other = ModRules {
                            start_anchor: r.start_anchor,
                            end_anchor: r.end_anchor,
                            rules: contributed,
                        };
                        r.merge(other);
                        proof {
                            lemma_kv_map_remove_absent(pre, j as int);
                            assert(src.entries@ =~= pre.remove(j as int));
                        }
                        src.insert_at(j, dk, r);
                        proof {
                            assert(src@ =~= src0@.insert(declarer@, src.entries@[j as int].1));
                        }
                    },
                    None => {
                        proof {
                            lemma_kv_map_contains(src.entries@, declarer@);
                        }
                        src.insert(
                            declarer.clone(),
                            ModRules { start_anchor: false, end_anchor: false, rules: contributed },
                        );
                    },
                }
                self.0.insert(b, (skey, src));
                proof {
                    assert(self.0@ =~= old(self).0@.update(b as int, (skey, src)));
                    assert(crate::rules::db_unique(self.0@));
                    lemma_kv_map_contains(src0.entries@, declarer@);
                    assert(self.source_keys() =~= keys0);
                    assert(views0[b as int] == kv_map(src0.entries@).map_values(
                        |x: ModRules| x@.rules,
                    ));
                    let prev = if views0[b as int].contains_key(declarer@) {
                        views0[b as int][declarer@]
                    } else {
                        Map::<Seq<char>, ModRelation>::empty()
                    };
                    assert(kv_map(src.entries@).map_values(|x: ModRules| x@.rules)
                        =~~= views0[b as int].insert(
                        declarer@,
                        prev.union_prefer_right(contributed@),
                    )) by {
                        if src0@.contains_key(declarer@) {
                            assert(prev =~= src0@[declarer@]@.rules);
                        } else {
                            assert(prev.union_prefer_right(contributed@) =~= contributed@);
                        }
                    }
                    assert(self.rules_view() =~~= views0.update(
                        b as int,
                        views0[b as int].insert(declarer@, prev.union_prefer_right(contributed@)),
                    ));
                }
                return ;
            }
            b += 1;
        }
        proof {
            if keys0.contains(SourceKey::Builtin) {
                let w = choose|w: int| 0 <= w < keys0.len() && keys0[w] == SourceKey::Builtin;
                assert(self.0@[w].0@ == SourceKey::Builtin);
                assert(false);
            }
        }
        let mut src: KeyedVec<ModRules> = KeyedVec::new();
        src.insert(
            declarer.clone(),
            ModRules { start_anchor: false, end_anchor: false, rules: contributed },
        );
        self.0.push((ModdbType::ModBuiltRules, src));
        proof {
            assert(crate::rules::db_unique(self.0@));
            assert(self.source_keys() =~= keys0.push(SourceKey::Builtin));
            assert(kv_map(src.entries@).map_values(|x: ModRules| x@.rules) =~~= Map::<
                Seq<char>,
                Map<Seq<char>, ModRelation>,
            >::empty().insert(declarer@, contributed@));
            assert(self.rules_view() =~~= views0.push(
                Map::<Seq<char>, Map<Seq<char>, ModRelation>>::empty().insert(
                    declarer@,
                    contributed@,
                ),
            ));
        }
    }
}

impl ModMetaData {
    /// The relations this package contributes for the given game version.
    pub fn version_rules(&self, version: &VersionKey) -> (r: KeyedVec<ModRelation>)
        ensures
            r.wf(),
            r@ == contributed_rules(self, version@),
    {
        let mut rules: KeyedVec<ModRelation> = KeyedVec::new();
        extend_with_ids(&mut rules, &self.load_before.list, ModRelation::Before);
        if let Some(ids) = lookup_by_version(&self.load_before_by_version.map, version) {
            extend_with_ids(&mut rules, ids, ModRelation::Before);
        }
        extend_with_ids(&mut rules, &self.force_load_before.list, ModRelation::Before);
        extend_with_ids(&mut rules, &self.load_after.list, ModRelation::After);
        if let Some(ids) = lookup_by_version(&self.load_after_by_version.map, version) {
            extend_with_ids(&mut rules, ids, ModRelation::After);
        }
        extend_with_ids(&mut rules, &self.force_load_after.list, ModRelation::After);
        extend_with_dependencies(&mut rules, &self.mod_dependencies.list);
        if let Some(infos) = lookup_by_version(&self.mod_dependencies_by_version.map, version) {
            extend_with_dependencies(&mut rules, infos);
        }
        extend_with_ids(&mut rules, &self.incompatible_with.list, ModRelation::Incompatibility);
        if let Some(ids) = lookup_by_version(&self.incompatible_with_by_version.map, version) {
            extend_with_ids(&mut rules, ids, ModRelation::Incompatibility);
        }
        rules
    }

    /// Feeds the relations this package declares for the given game version
    /// into the rule database, under the built-from-metadata source. A
    /// package that does not support the version contributes an empty rule
    /// set, which still leaves it an entry in that source.
    pub fn load_dependency_information_for_version(
        &self,
        version: &VersionKey,
        mod_rule_db: &mut ModRuleDb,
    )
        requires
            old(mod_rule_db).wf(),
        ensures
            final(mod_rule_db).wf(),
            db_after_merge(
                old(mod_rule_db),
                final(mod_rule_db),
                self.package_id@,
                if spec_supports(self, version@) {
                    contributed_rules(self, version@)
                } else {
                    Map::<Seq<char>, ModRelation>::empty()
                },
            ),
    {
        let contributed: KeyedVec<ModRelation> = if self.does_mod_support_this_version(version) {
            self.version_rules(version)
        } else {
            KeyedVec::new()
        };
        mod_rule_db.merge_builtin_rules(&self.package_id, contributed);
    }
}

} // verus!
