//! Validity probes for the directories the manager is pointed at.
//!
//! The probes ask the filesystem, so nothing can be promised of their
//! results; the functions here only combine them.

use vstd::prelude::*;

verus! {

/// Relies on `std::path::Path::is_dir`; the result depends on the state of
/// the filesystem at the moment of the call.
#[verifier::external_body]
fn path_is_dir(path: &str) -> bool {
    std::path::Path::new(path).is_dir()
}

/// Relies on `std::path::Path::is_file`, probing the entry `name` under
/// `dir`; the result depends on the state of the filesystem.
#[verifier::external_body]
fn path_has_file(dir: &str, name: &str) -> bool {
    std::path::Path::new(dir).join(name).is_file()
}

/// Relies on `std::path::Path::is_dir`, probing the entry `name` under
/// `dir`; the result depends on the state of the filesystem.
#[verifier::external_body]
fn path_has_dir(dir: &str, name: &str) -> bool {
    std::path::Path::new(dir).join(name).is_dir()
}

/// Basic check for if this game directory is valid.
pub fn does_directory_represent_valid_game_installation(game_dir: &str) -> bool {
    path_is_dir(game_dir) && path_has_file(game_dir, "Version.txt") && path_has_dir(
        game_dir,
        "Data",
    )
}

/// Basic check for if this steam prefix is valid.
pub fn does_directory_represent_valid_steam_prefix(steam_dir: &str) -> bool {
    path_is_dir(steam_dir) && path_has_dir(steam_dir, "steamapps")
}

} // verus!
