//! The names of a package under the naming schemes in use.

use crate::text::{chars_of, opt_view, replace_char, replaced_char, split, split_on, string_of, views_of};
use convert_case::{Case, Casing};
use vstd::prelude::*;

verus! {

/// The kebab-case form of `name` as `convert_case` computes it.
pub uninterp spec fn kebab_case_of(name: Seq<char>) -> Seq<char>;

/// `convert_case`'s `Casing::to_case` with `Case::Kebab`: the words of `name`,
/// found at the crate's default boundaries, in lower case and joined by `-`.
/// The result depends on `name` alone; the contract gives it a name and says
/// nothing more of it.
#[verifier::external_body]
fn to_kebab_case(name: &str) -> (r: String)
    ensures
        r@ == kebab_case_of(name@),
{
    name.to_case(Case::Kebab)
}

/// The registry name of `name`: its kebab-case form with every `/` turned
/// into `-`, so that a scope becomes a prefix.
pub open spec fn registry_name_of(name: Seq<char>) -> Seq<char> {
    replaced_char(kebab_case_of(name), '/', '-')
}

/// Formats an arbitrary name as a registry name: `roblox/lumberyak` becomes
/// `roblox-lumberyak`.
pub fn format_registry_name(name: &str) -> (r: String)
    ensures
        r@ == registry_name_of(name@),
{
    let kebab = to_kebab_case(name);
    let chars = chars_of(kebab.as_str());
    let flat = replace_char(&chars, '/', '-');
    string_of(&flat)
}

/// The names of one package.
#[derive(Debug, Clone, PartialEq, Eq)]
pub struct PackageName {
    /// The name as it appears on the path, such as `ChalkLua-198f600a-0.1.3`.
    pub path_name: String,
    /// The kebab-cased name with its scope flattened, such as `chalk-lua`.
    pub registry_name: String,
    /// The scope, where the name is scoped.
    pub scope: Option<String>,
    /// The name within the scope, where the name is scoped.
    pub scoped_name: Option<String>,
    /// The name as it was given, before any processing.
    pub unprocessed_name: String,
}

/// What a `PackageName` holds, as sequences of characters.
pub struct PackageNameView {
    pub path_name: Seq<char>,
    pub registry_name: Seq<char>,
    pub scope: Option<Seq<char>>,
    pub scoped_name: Option<Seq<char>>,
    pub unprocessed_name: Seq<char>,
}

impl View for PackageName {
    type V = PackageNameView;

    open spec fn view(&self) -> PackageNameView {
        PackageNameView {
            path_name: self.path_name@,
            registry_name: self.registry_name@,
            scope: opt_view(self.scope),
            scoped_name: opt_view(self.scoped_name),
            unprocessed_name: self.unprocessed_name@,
        }
    }
}

/// A name with more than one `/` cannot be a scoped name.
#[derive(Debug, Clone, PartialEq, Eq)]
pub struct InvalidIdentity {
    /// The name as it was given.
    pub name: String,
}

/// The names that belong to a package found under `path_name` whose lock
/// gives `lock_name`, or the rejected `lock_name`.
///
/// The kebab-case form of `lock_name` is split at `/`: one piece is an
/// unscoped name, two pieces are scope and scoped name, more are rejected.
pub open spec fn identity_of(path_name: Seq<char>, lock_name: Seq<char>) -> Result<
    PackageNameView,
    Seq<char>,
> {
    let name = kebab_case_of(lock_name);
    let parts = split_on(name, '/');
    if parts.len() > 2 {
        Err(lock_name)
    } else {
        Ok(
            PackageNameView {
                path_name,
                registry_name: registry_name_of(name),
                scope: if parts.len() == 2 {
                    Some(parts[0])
                } else {
                    None
                },
                scoped_name: if parts.len() == 2 {
                    Some(parts[1])
                } else {
                    None
                },
                unprocessed_name: lock_name,
            },
        )
    }
}

/// The view of a result of `PackageName::new`.
pub open spec fn identity_view(r: Result<PackageName, InvalidIdentity>) -> Result<
    PackageNameView,
    Seq<char>,
> {
    match r {
        Ok(n) => Ok(n@),
        Err(e) => Err(e.name@),
    }
}

impl PackageName {
    /// The names of the package found under the path component `path_name`
    /// whose lock gives `lock_name`.
    pub fn new(path_name: &str, lock_name: &str) -> (r: Result<Self, InvalidIdentity>)
        ensures
            identity_view(r) == identity_of(path_name@, lock_name@),
    {
        let name = to_kebab_case(lock_name);
        let registry_name = format_registry_name(name.as_str());
        let chars = chars_of(name.as_str());
        let parts = split(&chars, '/');
        if parts.len() > 2 {
            return Err(InvalidIdentity { name: lock_name.to_owned() });
        }
        let (scope, scoped_name) = if parts.len() == 2 {
            (Some(string_of(&parts[0])), Some(string_of(&parts[1])))
        } else {
            (None, None)
        };
        proof {
            if parts.len() == 2 {
                assert(views_of(parts@)[0] == parts@[0]@);
                assert(views_of(parts@)[1] == parts@[1]@);
            }
        }
        Ok(
            Self {
                path_name: path_name.to_owned(),
                registry_name,
                scope,
                scoped_name,
                unprocessed_name: lock_name.to_owned(),
            },
        )
    }
}

} // verus!
