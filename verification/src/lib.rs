//! Management core for an ordered collection of game mods subject to
//! pairwise ordering and compatibility constraints.
//!
//! The heart of the crate is the rule database ([`rules::ModRuleDb`]), the
//! violation detector ([`list::ModList::find_list_issues`]) and the bounded
//! repair loop ([`list::ModList::autofix`]). Everything around them (file
//! formats, directory scanning, presentation) lives outside this library and
//! exchanges plain values with it.

pub mod detect;
pub mod fix;
pub mod ids;
pub mod issues;
pub mod kv;
pub mod laws;
pub mod list;
pub mod metadata;
pub mod paths;
pub mod rules;

pub use ids::ModdbType;
pub use ids::PackageId;
pub use issues::ModListIssueCache;
pub use kv::KeyedVec;
pub use list::CondensedModMetadata;
pub use list::ModList;
pub use metadata::ModMetaData;
pub use paths::does_directory_represent_valid_game_installation;
pub use paths::does_directory_represent_valid_steam_prefix;
pub use rules::ModRelation;
pub use rules::ModRuleDb;
pub use rules::ModRules;
