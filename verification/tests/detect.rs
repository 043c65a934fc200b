use rim_manager::CondensedModMetadata;
use rim_manager::KeyedVec;
use rim_manager::ModList;
use rim_manager::ModListIssueCache;
use rim_manager::ModRelation;
use rim_manager::ModRuleDb;
use rim_manager::ModRules;
use rim_manager::ModdbType;
use rim_manager::PackageId;

fn pid(s: &str) -> PackageId {
    PackageId::new(s)
}

fn meta(name: &str) -> CondensedModMetadata {
    CondensedModMetadata {
        displayable_name: name.to_string(),
        location: String::new(),
        description: String::new(),
    }
}

fn ruleset(pairs: &[(&str, ModRelation)]) -> ModRules {
    let mut r = ModRules::new();
    for (t, rel) in pairs {
        r.rules.insert(pid(t), *rel);
    }
    r
}

fn source_of(rules: &[(&str, &[(&str, ModRelation)])]) -> KeyedVec<ModRules> {
    let mut src: KeyedVec<ModRules> = KeyedVec::new();
    for (d, pairs) in rules {
        src.insert(pid(d), ruleset(pairs));
    }
    src
}

fn db_with(rules: &[(&str, &[(&str, ModRelation)])]) -> ModRuleDb {
    let mut db = ModRuleDb::new();
    db.add_db(ModdbType::ModBuiltRules, source_of(rules));
    db
}

fn list_of(ids: &[&str]) -> ModList {
    let mut l = ModList::new();
    for id in ids {
        l.push(pid(id), meta(id));
    }
    l
}

fn issue_count(cache: &ModListIssueCache) -> usize {
    cache.0.len()
}

fn issue_of(cache: &ModListIssueCache, d: &str, t: &str) -> Option<ModRelation> {
    match cache.get(&pid(d)) {
        Some(m) => m.get(&pid(t)).copied(),
        None => None,
    }
}

#[test]
fn before_violation_is_reported() {
    let db = db_with(&[("a", &[("b", ModRelation::Before)])]);
    let list = list_of(&["b", "a"]);
    let mut cache = ModListIssueCache::new();
    list.find_list_issues(&db, &mut cache);
    assert_eq!(issue_count(&cache), 1);
    assert_eq!(issue_of(&cache, "a", "b"), Some(ModRelation::Before));
}

#[test]
fn before_satisfied_is_clean() {
    let db = db_with(&[("a", &[("b", ModRelation::Before)])]);
    let list = list_of(&["a", "b"]);
    let mut cache = ModListIssueCache::new();
    list.find_list_issues(&db, &mut cache);
    assert!(cache.is_empty());
}

#[test]
fn after_violation_is_reported() {
    let db = db_with(&[("a", &[("b", ModRelation::After)])]);
    let list = list_of(&["a", "b"]);
    let mut cache = ModListIssueCache::new();
    list.find_list_issues(&db, &mut cache);
    assert_eq!(issue_of(&cache, "a", "b"), Some(ModRelation::After));
}

#[test]
fn dependency_missing_target_is_hard_failure() {
    let db = db_with(&[("a", &[("c", ModRelation::Dependency)])]);
    let list = list_of(&["a"]);
    let mut cache = ModListIssueCache::new();
    list.find_list_issues(&db, &mut cache);
    assert_eq!(issue_count(&cache), 1);
    assert_eq!(issue_of(&cache, "a", "c"), Some(ModRelation::Dependency));
}

#[test]
fn dependency_present_and_first_is_clean() {
    let db = db_with(&[("a", &[("c", ModRelation::Dependency)])]);
    let list = list_of(&["c", "a"]);
    let mut cache = ModListIssueCache::new();
    list.find_list_issues(&db, &mut cache);
    assert!(cache.is_empty());
}

#[test]
fn dependency_present_but_late_degrades_to_after() {
    let db = db_with(&[("a", &[("c", ModRelation::Dependency)])]);
    let list = list_of(&["a", "c"]);
    let mut cache = ModListIssueCache::new();
    list.find_list_issues(&db, &mut cache);
    assert_eq!(issue_count(&cache), 1);
    assert_eq!(issue_of(&cache, "a", "c"), Some(ModRelation::After));
}

#[test]
fn incompatibility_reported_in_both_orders() {
    let db = db_with(&[("a", &[("b", ModRelation::Incompatibility)])]);
    let mut cache = ModListIssueCache::new();
    list_of(&["a", "b"]).find_list_issues(&db, &mut cache);
    assert_eq!(issue_of(&cache, "a", "b"), Some(ModRelation::Incompatibility));
    list_of(&["b", "a"]).find_list_issues(&db, &mut cache);
    assert_eq!(issue_of(&cache, "a", "b"), Some(ModRelation::Incompatibility));
}

#[test]
fn absent_declarer_is_ignored() {
    let db = db_with(&[("x", &[("a", ModRelation::Incompatibility)])]);
    let list = list_of(&["a", "b"]);
    let mut cache = ModListIssueCache::new();
    list.find_list_issues(&db, &mut cache);
    assert!(cache.is_empty());
}

#[test]
fn detection_is_deterministic() {
    let db = db_with(&[
        ("a", &[("b", ModRelation::Before), ("c", ModRelation::Dependency)]),
        ("b", &[("a", ModRelation::Before), ("d", ModRelation::Incompatibility)]),
    ]);
    let list = list_of(&["b", "a", "d"]);
    let mut c1 = ModListIssueCache::new();
    let mut c2 = ModListIssueCache::new();
    list.find_list_issues(&db, &mut c1);
    list.find_list_issues(&db, &mut c2);
    assert_eq!(issue_count(&c1), issue_count(&c2));
    for i in 0..c1.0.len() {
        let d = c1.0.key_at(i);
        let m1 = c1.get(d).unwrap();
        let m2 = c2.get(d).expect("same packages must be reported");
        assert_eq!(m1.len(), m2.len());
        for j in 0..m1.len() {
            let t = m1.key_at(j);
            assert_eq!(m1.get(t).copied(), m2.get(t).copied());
        }
    }
}

#[test]
fn satisfied_order_reports_nothing() {
    let db = db_with(&[
        ("a", &[("b", ModRelation::Before), ("c", ModRelation::Dependency)]),
        ("b", &[("a", ModRelation::After)]),
    ]);
    let list = list_of(&["c", "a", "b"]);
    let mut cache = ModListIssueCache::new();
    list.find_list_issues(&db, &mut cache);
    assert!(cache.is_empty());
}

#[test]
fn sources_are_consulted_in_aggregate() {
    let mut db = ModRuleDb::new();
    db.add_db(
        ModdbType::ModBuiltRules,
        source_of(&[("a", &[("b", ModRelation::Before)])]),
    );
    db.add_db(
        ModdbType::RuleFile("extra.toml".to_string()),
        source_of(&[("b", &[("c", ModRelation::Incompatibility)])]),
    );
    let list = list_of(&["b", "a", "c"]);
    let mut cache = ModListIssueCache::new();
    list.find_list_issues(&db, &mut cache);
    assert_eq!(issue_of(&cache, "a", "b"), Some(ModRelation::Before));
    assert_eq!(issue_of(&cache, "b", "c"), Some(ModRelation::Incompatibility));
}

#[test]
fn later_source_settles_the_same_pair() {
    let mut db = ModRuleDb::new();
    db.add_db(
        ModdbType::ModBuiltRules,
        source_of(&[("a", &[("b", ModRelation::Before)])]),
    );
    db.add_db(
        ModdbType::RuleFile("extra.toml".to_string()),
        source_of(&[("a", &[("b", ModRelation::Dependency)])]),
    );
    // Before alone would be violated, but the later dependency declaration
    // re-examines the pair: the target is present and precedes the declarer.
    let list = list_of(&["b", "a"]);
    let mut cache = ModListIssueCache::new();
    list.find_list_issues(&db, &mut cache);
    assert!(cache.is_empty());
}

#[test]
fn empty_inputs_are_clean() {
    let db = ModRuleDb::new();
    let list = list_of(&[]);
    let mut cache = ModListIssueCache::new();
    list.find_list_issues(&db, &mut cache);
    assert!(cache.is_empty());

    let db2 = db_with(&[("a", &[("b", ModRelation::Before)])]);
    let empty = list_of(&[]);
    list.find_list_issues(&db2, &mut cache);
    assert!(cache.is_empty());
    empty.find_list_issues(&ModRuleDb::new(), &mut cache);
    assert!(cache.is_empty());
}

#[test]
fn identifiers_are_case_folded() {
    assert_eq!(pid("Ludeon.RimWorld"), pid("ludeon.rimworld"));
    // detection joins rules and lists across case differences
    let db = db_with(&[("Alpha", &[("Beta", ModRelation::Before)])]);
    let list = list_of(&["beta", "alpha"]);
    let mut cache = ModListIssueCache::new();
    list.find_list_issues(&db, &mut cache);
    assert_eq!(issue_of(&cache, "alpha", "beta"), Some(ModRelation::Before));
}
