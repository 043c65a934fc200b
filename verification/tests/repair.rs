use rim_manager::CondensedModMetadata;
use rim_manager::KeyedVec;
use rim_manager::ModList;
use rim_manager::ModListIssueCache;
use rim_manager::ModRelation;
use rim_manager::ModRuleDb;
use rim_manager::ModRules;
use rim_manager::ModdbType;
use rim_manager::PackageId;

fn pid(s: &str) -> PackageId {
    PackageId::new(s)
}

fn meta(name: &str) -> CondensedModMetadata {
    CondensedModMetadata {
        displayable_name: name.to_string(),
        location: String::new(),
        description: String::new(),
    }
}

fn build_db(rules: &[(&str, &[(&str, ModRelation)])]) -> ModRuleDb {
    let mut src: KeyedVec<ModRules> = KeyedVec::new();
    for (d, pairs) in rules {
        let mut r = ModRules::new();
        for (t, rel) in *pairs {
            r.rules.insert(pid(t), *rel);
        }
        src.insert(pid(d), r);
    }
    let mut db = ModRuleDb::new();
    db.add_db(ModdbType::ModBuiltRules, src);
    db
}

fn build_list(ids: &[&str]) -> ModList {
    let mut l = ModList::new();
    for id in ids {
        l.push(pid(id), meta(id));
    }
    l
}

fn fresh_cache(list: &ModList, db: &ModRuleDb) -> ModListIssueCache {
    let mut cache = ModListIssueCache::new();
    list.find_list_issues(db, &mut cache);
    cache
}

#[test]
fn autofix_with_no_issues_succeeds_at_once() {
    let db = build_db(&[("a", &[("b", ModRelation::Before)])]);
    let mut active = build_list(&["a", "b"]);
    let mut inactive = build_list(&["c"]);
    let mut cache = fresh_cache(&active, &db);
    assert!(active.autofix(&db, &mut inactive, &mut cache));
    assert!(cache.is_empty());
    // nothing moved: both lists are exactly as they were
    assert_eq!(active.len(), 2);
    assert_eq!(active.get_index_of(&pid("a")), Some(0));
    assert_eq!(active.get_index_of(&pid("b")), Some(1));
    assert_eq!(inactive.len(), 1);
    assert!(inactive.contains_key(&pid("c")));
}

#[test]
fn autofix_repairs_a_before_violation() {
    let db = build_db(&[("a", &[("b", ModRelation::Before)])]);
    let mut active = build_list(&["b", "a"]);
    let mut inactive = build_list(&[]);
    let mut cache = fresh_cache(&active, &db);
    assert!(!cache.is_empty());
    assert!(active.autofix(&db, &mut inactive, &mut cache));
    assert!(cache.is_empty());
    let pa = active.get_index_of(&pid("a")).unwrap();
    let pb = active.get_index_of(&pid("b")).unwrap();
    assert!(pa < pb);
}

#[test]
fn incompatibility_is_never_auto_resolved() {
    let db = build_db(&[("a", &[("b", ModRelation::Incompatibility)])]);
    let mut active = build_list(&["a", "b"]);
    let mut inactive = build_list(&[]);
    let mut cache = fresh_cache(&active, &db);
    assert!(!active.autofix(&db, &mut inactive, &mut cache));
    // the cache still records the incompatibility afterward
    let issues = cache.get(&pid("a")).expect("entry kept");
    assert_eq!(issues.get(&pid("b")).copied(), Some(ModRelation::Incompatibility));
}

#[test]
fn missing_dependency_is_promoted_from_inactive() {
    let db = build_db(&[("a", &[("c", ModRelation::Dependency)])]);
    let mut active = build_list(&["a"]);
    let mut inactive = build_list(&["c"]);
    let mut cache = fresh_cache(&active, &db);
    assert!(active.autofix(&db, &mut inactive, &mut cache));
    assert!(cache.is_empty());
    assert!(!inactive.contains_key(&pid("c")));
    let pc = active.get_index_of(&pid("c")).expect("c activated");
    let pa = active.get_index_of(&pid("a")).expect("a kept");
    assert!(pc < pa);
}

#[test]
fn dependency_found_nowhere_fails() {
    let db = build_db(&[("a", &[("c", ModRelation::Dependency)])]);
    let mut active = build_list(&["a"]);
    let mut inactive = build_list(&["d"]);
    let mut cache = fresh_cache(&active, &db);
    assert!(!active.autofix(&db, &mut inactive, &mut cache));
    // the inactive list was left alone
    assert!(inactive.contains_key(&pid("d")));
    assert_eq!(inactive.len(), 1);
}

#[test]
fn three_cycle_terminates_and_fails() {
    let db = build_db(&[
        ("a", &[("b", ModRelation::Before)]),
        ("b", &[("c", ModRelation::Before)]),
        ("c", &[("a", ModRelation::Before)]),
    ]);
    let mut active = build_list(&["a", "b", "c"]);
    let mut inactive = build_list(&[]);
    let mut cache = fresh_cache(&active, &db);
    assert!(!active.autofix(&db, &mut inactive, &mut cache));
    // no entry was lost while shuffling
    assert_eq!(active.len(), 3);
    assert_eq!(inactive.len(), 0);
}

#[test]
fn two_sided_ordering_conflict_terminates() {
    let db = build_db(&[
        ("a", &[("b", ModRelation::Before)]),
        ("b", &[("a", ModRelation::Before)]),
    ]);
    let mut active = build_list(&["a", "b"]);
    let mut inactive = build_list(&[]);
    let mut cache = fresh_cache(&active, &db);
    let fixed = active.autofix(&db, &mut inactive, &mut cache);
    // a mutual Before constraint cannot be satisfied: the loop must give up
    assert!(!fixed);
    assert_eq!(active.len(), 2);
}

#[test]
fn repair_handles_dependency_then_ordering() {
    let db = build_db(&[
        ("a", &[("c", ModRelation::Dependency), ("b", ModRelation::Before)]),
    ]);
    let mut active = build_list(&["b", "a"]);
    let mut inactive = build_list(&["c"]);
    let mut cache = fresh_cache(&active, &db);
    assert!(active.autofix(&db, &mut inactive, &mut cache));
    assert!(cache.is_empty());
    assert_eq!(active.len(), 3);
    let pa = active.get_index_of(&pid("a")).unwrap();
    let pb = active.get_index_of(&pid("b")).unwrap();
    let pc = active.get_index_of(&pid("c")).unwrap();
    assert!(pa < pb);
    assert!(pc < pa);
}
