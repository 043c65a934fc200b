//! Normalized package identifiers and rule-source identifiers.

use vstd::prelude::*;

verus! {

/// The sequence of characters that lowercasing a string yields. The exact
/// mapping is Unicode's and is not restated here; all that matters to the
/// rest of the crate is that it is a function of the input characters alone.
pub uninterp spec fn lower_of(s: Seq<char>) -> Seq<char>;

/// Relies on `str::to_lowercase`: the result depends on the characters of
/// the input alone.
#[verifier::external_body]
fn lowercase(s: &str) -> (r: String)
    ensures
        r@ == lower_of(s@),
{
    s.to_lowercase()
}

/// A package identifier. Identifiers are case-folded to lowercase when built
/// through [`PackageId::new`], so that identifiers obtained that way compare
/// case-insensitively by construction; they are never re-normalized later.
#[derive(Debug)]
pub struct PackageId(pub String);

impl View for PackageId {
    type V = Seq<char>;

    open spec fn view(&self) -> Seq<char> {
        self.0@
    }
}

impl PackageId {
    /// Builds an identifier from raw text, folding it to lowercase.
    pub fn new(raw: &str) -> (r: PackageId)
        ensures
            r@ == lower_of(raw@),
    {
        PackageId(lowercase(raw))
    }
}

impl Clone for PackageId {
    fn clone(&self) -> (r: Self)
        ensures
            r@ == self@,
    {
        PackageId(self.0.clone())
    }
}

impl PartialEq for PackageId {
    fn eq(&self, other: &PackageId) -> (r: bool) {
        self.0 == other.0
    }
}

impl vstd::std_specs::cmp::PartialEqSpecImpl for PackageId {
    open spec fn obeys_eq_spec() -> bool {
        true
    }

    open spec fn eq_spec(&self, other: &PackageId) -> bool {
        self@ == other@
    }
}

/// Identifies one source of rules inside a rule database: either the rules
/// derived from package metadata, or an external rule file named by its
/// location.
#[derive(Debug)]
pub enum ModdbType {
    ModBuiltRules,
    RuleFile(String),
}

/// The mathematical value of a rule-source identifier.
pub ghost enum SourceKey {
    Builtin,
    File(Seq<char>),
}

impl View for ModdbType {
    type V = SourceKey;

    open spec fn view(&self) -> SourceKey {
        match self {
            ModdbType::ModBuiltRules => SourceKey::Builtin,
            ModdbType::RuleFile(p) => SourceKey::File(p@),
        }
    }
}

impl Clone for ModdbType {
    fn clone(&self) -> (r: Self)
        ensures
            r@ == self@,
    {
        match self {
            ModdbType::ModBuiltRules => ModdbType::ModBuiltRules,
            ModdbType::RuleFile(p) => ModdbType::RuleFile(p.clone()),
        }
    }
}

impl PartialEq for ModdbType {
    fn eq(&self, other: &ModdbType) -> (r: bool) {
        match (self, other) {
            (ModdbType::ModBuiltRules, ModdbType::ModBuiltRules) => true,
            (ModdbType::RuleFile(a), ModdbType::RuleFile(b)) => *a == *b,
            _ => false,
        }
    }
}

impl vstd::std_specs::cmp::PartialEqSpecImpl for ModdbType {
    open spec fn obeys_eq_spec() -> bool {
        true
    }

    open spec fn eq_spec(&self, other: &ModdbType) -> bool {
        self@ == other@
    }
}

} // verus!
