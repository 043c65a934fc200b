use rim_manager::metadata::Authors;
use rim_manager::metadata::IncompatibleWith;
use rim_manager::metadata::IncompatibleWithByVersion;
use rim_manager::metadata::LoadAfter;
use rim_manager::metadata::LoadAfterByVersion;
use rim_manager::metadata::LoadBefore;
use rim_manager::metadata::LoadBeforeByVersion;
use rim_manager::metadata::ModDependencies;
use rim_manager::metadata::ModDependenciesByVersion;
use rim_manager::metadata::ModDependencyInfo;
use rim_manager::metadata::SupportedVersions;
use rim_manager::metadata::VersionKey;
use rim_manager::does_directory_represent_valid_game_installation;
use rim_manager::does_directory_represent_valid_steam_prefix;
use rim_manager::KeyedVec;
use rim_manager::ModMetaData;
use rim_manager::ModRelation;
use rim_manager::ModRuleDb;
use rim_manager::ModRules;
use rim_manager::ModdbType;
use rim_manager::PackageId;

fn pid(s: &str) -> PackageId {
    PackageId::new(s)
}

fn vkey(major: &str, minor: &str) -> VersionKey {
    VersionKey { major: major.to_string(), minor: minor.to_string() }
}

fn bare_metadata(id: &str) -> ModMetaData {
    ModMetaData {
        name: None,
        author: None,
        authors: None,
        description: String::new(),
        supported_versions: None,
        package_id: pid(id),
        load_before: LoadBefore { list: Vec::new() },
        load_before_by_version: LoadBeforeByVersion { map: Vec::new() },
        force_load_before: LoadBefore { list: Vec::new() },
        load_after: LoadAfter { list: Vec::new() },
        load_after_by_version: LoadAfterByVersion { map: Vec::new() },
        force_load_after: LoadAfter { list: Vec::new() },
        mod_dependencies: ModDependencies { list: Vec::new() },
        mod_dependencies_by_version: ModDependenciesByVersion { map: Vec::new() },
        incompatible_with: IncompatibleWith { list: Vec::new() },
        incompatible_with_by_version: IncompatibleWithByVersion { map: Vec::new() },
    }
}

fn builtin_rules_of<'a>(db: &'a ModRuleDb, declarer: &str) -> &'a ModRules {
    for (source, rules) in db.0.iter() {
        if *source == ModdbType::ModBuiltRules {
            return rules.get(&pid(declarer)).expect("declarer registered");
        }
    }
    panic!("no built-from-metadata source");
}

#[test]
fn merge_overwrites_anchors_and_collisions() {
    let mut base = ModRules::new();
    base.start_anchor = true;
    base.rules.insert(pid("x"), ModRelation::Before);
    base.rules.insert(pid("y"), ModRelation::After);

    let mut other = ModRules::new();
    other.end_anchor = true;
    other.rules.insert(pid("y"), ModRelation::Incompatibility);
    other.rules.insert(pid("z"), ModRelation::Dependency);

    base.merge(other);
    assert!(!base.start_anchor);
    assert!(base.end_anchor);
    assert_eq!(base.rules.get(&pid("x")).copied(), Some(ModRelation::Before));
    assert_eq!(base.rules.get(&pid("y")).copied(), Some(ModRelation::Incompatibility));
    assert_eq!(base.rules.get(&pid("z")).copied(), Some(ModRelation::Dependency));
    assert_eq!(base.rules.len(), 3);
}

#[test]
fn add_db_replaces_same_source_and_appends_new() {
    let mut db = ModRuleDb::new();
    let mut s1: KeyedVec<ModRules> = KeyedVec::new();
    s1.insert(pid("a"), ModRules::new());
    db.add_db(ModdbType::RuleFile("rules.toml".to_string()), s1);
    assert_eq!(db.0.len(), 1);

    let mut s2: KeyedVec<ModRules> = KeyedVec::new();
    s2.insert(pid("b"), ModRules::new());
    db.add_db(ModdbType::RuleFile("rules.toml".to_string()), s2);
    assert_eq!(db.0.len(), 1);
    assert!(db.0[0].1.get(&pid("b")).is_some());
    assert!(db.0[0].1.get(&pid("a")).is_none());

    let mut s3: KeyedVec<ModRules> = KeyedVec::new();
    s3.insert(pid("c"), ModRules::new());
    db.add_db(ModdbType::ModBuiltRules, s3);
    assert_eq!(db.0.len(), 2);
    assert!(matches!(db.0[1].0, ModdbType::ModBuiltRules));
}

#[test]
fn source_identifiers_compare_by_contents() {
    assert_eq!(
        ModdbType::RuleFile("a.toml".to_string()),
        ModdbType::RuleFile("a.toml".to_string())
    );
    assert_ne!(
        ModdbType::RuleFile("a.toml".to_string()),
        ModdbType::RuleFile("b.toml".to_string())
    );
    assert_ne!(ModdbType::ModBuiltRules, ModdbType::RuleFile("a.toml".to_string()));
}

#[test]
fn mod_authors_are_unioned_without_duplicates() {
    let mut md = bare_metadata("m");
    md.author = Some(vec!["Alice".to_string(), "Bob".to_string()]);
    md.authors = Some(Authors { list: vec!["Bob".to_string(), "Carol".to_string()] });
    let mut got = md.get_mod_authors();
    got.sort();
    assert_eq!(got, vec!["Alice".to_string(), "Bob".to_string(), "Carol".to_string()]);
}

#[test]
fn mod_without_supported_versions_supports_all() {
    let md = bare_metadata("m");
    assert!(md.does_mod_support_this_version(&vkey("1", "4")));
}

#[test]
fn supported_versions_are_matched_exactly() {
    let mut md = bare_metadata("m");
    md.supported_versions =
        Some(SupportedVersions { list: vec![vkey("1", "3"), vkey("1", "4")] });
    assert!(md.does_mod_support_this_version(&vkey("1", "4")));
    assert!(!md.does_mod_support_this_version(&vkey("1", "5")));
}

#[test]
fn dependency_information_is_loaded_in_group_order() {
    let mut md = bare_metadata("m");
    md.load_before.list = vec![pid("x"), pid("w")];
    md.load_after.list = vec![pid("y")];
    md.mod_dependencies.list = vec![ModDependencyInfo {
        package_id: pid("core"),
        display_name: "Core".to_string(),
        steam_workshop_url: None,
    }];
    // a later group overwrites an earlier one for the same target
    md.incompatible_with.list = vec![pid("x")];

    let mut db = ModRuleDb::new();
    md.load_dependency_information_for_version(&vkey("1", "4"), &mut db);

    let rules = &builtin_rules_of(&db, "m").rules;
    assert_eq!(rules.get(&pid("x")).copied(), Some(ModRelation::Incompatibility));
    assert_eq!(rules.get(&pid("w")).copied(), Some(ModRelation::Before));
    assert_eq!(rules.get(&pid("y")).copied(), Some(ModRelation::After));
    assert_eq!(rules.get(&pid("core")).copied(), Some(ModRelation::Dependency));
}

#[test]
fn version_specific_groups_apply_only_on_match() {
    let mut md = bare_metadata("m");
    md.load_after_by_version =
        LoadAfterByVersion { map: vec![(vkey("1", "4"), vec![pid("y")])] };

    let mut db = ModRuleDb::new();
    md.load_dependency_information_for_version(&vkey("1", "4"), &mut db);
    assert_eq!(
        builtin_rules_of(&db, "m").rules.get(&pid("y")).copied(),
        Some(ModRelation::After)
    );

    let mut db2 = ModRuleDb::new();
    md.load_dependency_information_for_version(&vkey("1", "5"), &mut db2);
    assert!(builtin_rules_of(&db2, "m").rules.get(&pid("y")).is_none());
}

#[test]
fn unsupported_version_contributes_nothing_but_registers() {
    let mut md = bare_metadata("m");
    md.supported_versions = Some(SupportedVersions { list: vec![vkey("1", "3")] });
    md.load_before.list = vec![pid("x")];

    let mut db = ModRuleDb::new();
    md.load_dependency_information_for_version(&vkey("1", "4"), &mut db);
    let rules = builtin_rules_of(&db, "m");
    assert_eq!(rules.rules.len(), 0);
}

#[test]
fn successive_loads_merge_per_declarer() {
    let mut md = bare_metadata("m");
    md.load_before.list = vec![pid("x")];
    let mut db = ModRuleDb::new();
    md.load_dependency_information_for_version(&vkey("1", "4"), &mut db);

    let mut md2 = bare_metadata("m");
    md2.load_after.list = vec![pid("y")];
    md2.load_dependency_information_for_version(&vkey("1", "4"), &mut db);

    assert_eq!(db.0.len(), 1);
    let rules = &builtin_rules_of(&db, "m").rules;
    assert_eq!(rules.get(&pid("x")).copied(), Some(ModRelation::Before));
    assert_eq!(rules.get(&pid("y")).copied(), Some(ModRelation::After));
}

#[test]
fn nonexistent_directories_are_rejected() {
    assert!(!does_directory_represent_valid_game_installation(
        "/this/path/should/not/exist/anywhere"
    ));
    assert!(!does_directory_represent_valid_steam_prefix(
        "/this/path/should/not/exist/anywhere"
    ));
}
