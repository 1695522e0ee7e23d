//! Pinned dependencies: versions, lock entries and their parser.

use crate::package::package_name::{format_registry_name, registry_name_of};
use crate::package::package_rewrite::{resolve_package, resolved, PackageRewrite};
use crate::scan::{first_index, lemma_first_index_is};
use crate::text::{
    chars_eq, chars_of, is_word, lemma_words_cons, lemma_words_one, opt_view, string_of,
    strings_of, views_of, words, words_of,
};
use vstd::prelude::*;

verus! {

/// The canonical text of the semantic version that `raw` spells, as `semver`
/// parses and prints it; `None` where `raw` is no semantic version.
pub uninterp spec fn semver_text_of(raw: Seq<char>) -> Option<Seq<char>>;

/// `semver::Version::parse`, and `Display` of the `Version` it gives: the
/// version's text where `raw` parses, `None` where the parser rejects it.
/// Both depend on `raw` alone; the contract names the outcome. It adds that
/// the text of a version is itself a version with that text: the parser
/// keeps the three numbers, which it takes without leading zeros, and the
/// identifiers behind them as they are written, and the text is made of
/// just these.
#[verifier::external_body]
fn canonical_semver(raw: &str) -> (r: Option<String>)
    ensures
        opt_view(r) == semver_text_of(raw@),
        r matches Some(text) ==> semver_text_of(text@) == Some(text@),
{
    match semver::Version::parse(raw) {
        Ok(version) => Some(version.to_string()),
        Err(_) => None,
    }
}

/// A commit hash that pins a version.
#[derive(Debug, Clone, Hash, PartialEq, Eq, PartialOrd, Ord)]
pub struct CommitHash(pub String);

/// A pinned version: a semantic version, held as its canonical text, or a
/// commit hash.
#[derive(Debug, Clone, Hash, PartialEq, Eq, PartialOrd, Ord)]
pub enum PackageVersion {
    SemVer(String),
    Commit(CommitHash),
}

/// What a `PackageVersion` holds.
pub enum PackageVersionView {
    SemVer(Seq<char>),
    Commit(Seq<char>),
}

impl View for PackageVersion {
    type V = PackageVersionView;

    open spec fn view(&self) -> PackageVersionView {
        match self {
            PackageVersion::SemVer(text) => PackageVersionView::SemVer(text@),
            PackageVersion::Commit(hash) => PackageVersionView::Commit(hash.0@),
        }
    }
}

/// The version that `raw` pins: semantic where `raw` is a semantic version,
/// else the commit `raw`.
pub open spec fn version_of(raw: Seq<char>) -> PackageVersionView {
    match semver_text_of(raw) {
        Some(text) => PackageVersionView::SemVer(text),
        None => PackageVersionView::Commit(raw),
    }
}

/// The text of a version.
pub open spec fn version_text(version: PackageVersionView) -> Seq<char> {
    match version {
        PackageVersionView::SemVer(text) => text,
        PackageVersionView::Commit(hash) => hash,
    }
}

impl PackageVersion {
    /// The version that `raw_version` pins. Its text pins the same version.
    pub fn new(raw_version: &str) -> (r: Self)
        ensures
            r@ == version_of(raw_version@),
            version_of(version_text(r@)) == r@,
    {
        match canonical_semver(raw_version) {
            Some(text) => PackageVersion::SemVer(text),
            None => PackageVersion::Commit(CommitHash(raw_version.to_owned())),
        }
    }

    /// The text of the version.
    pub fn to_string(&self) -> (r: String)
        ensures
            r@ == version_text(self@),
    {
        match self {
            PackageVersion::SemVer(text) => text.clone(),
            PackageVersion::Commit(hash) => hash.0.clone(),
        }
    }
}

/// One declared dependency of a package.
#[derive(Debug, Clone, PartialEq, Eq)]
pub struct LockDependency {
    /// The registry name; that of the replacement where `is_rewritten`.
    pub registry_name: String,
    /// The name under which the dependant refers to the dependency.
    pub path_name: String,
    /// The pinned version; that of the replacement where `is_rewritten`.
    pub version: PackageVersion,
    /// Whether a rewrite rule replaced the declared package.
    pub is_rewritten: bool,
}

/// What a `LockDependency` holds.
pub struct LockDependencyView {
    pub registry_name: Seq<char>,
    pub path_name: Seq<char>,
    pub version: PackageVersionView,
    pub is_rewritten: bool,
}

impl View for LockDependency {
    type V = LockDependencyView;

    open spec fn view(&self) -> LockDependencyView {
        LockDependencyView {
            registry_name: self.registry_name@,
            path_name: self.path_name@,
            version: self.version@,
            is_rewritten: self.is_rewritten,
        }
    }
}

/// The views of the dependencies held by `deps`.
pub open spec fn dependencies_view(deps: Seq<LockDependency>) -> Seq<LockDependencyView> {
    deps.map_values(|d: LockDependency| d@)
}

/// The pinned-dependency record of one package.
#[derive(Debug, Clone, PartialEq, Eq)]
pub struct PackageLock {
    pub name: String,
    /// The package's own version, as the canonical text of a semantic version.
    pub version: String,
    pub commit: String,
    pub source: String,
    /// One entry per dependency: `path_name [<patched>] registry_name version
    /// [source...]`, separated by white space.
    pub dependencies: Option<Vec<String>>,
}

/// The field that a lock entry lacks.
#[derive(Debug, Clone, Copy, PartialEq, Eq, Structural)]
pub enum MissingField {
    /// The entry holds nothing but white space.
    PathName,
    /// Nothing follows the path name.
    RegistryName,
    /// Nothing follows the `<patched>` marker.
    PatchedRegistryName,
    /// Nothing follows the registry name.
    Version,
}

/// Why the dependencies of a lock could not be listed.
#[derive(Debug, Clone, PartialEq, Eq)]
pub enum LockError {
    /// The lock declares no dependency list at all.
    NoDependencies,
    /// An entry of the dependency list lacks a field.
    MalformedLine { line: String, missing: MissingField },
}

/// What a `LockError` holds.
pub enum LockErrorView {
    NoDependencies,
    MalformedLine { line: Seq<char>, missing: MissingField },
}

impl View for LockError {
    type V = LockErrorView;

    open spec fn view(&self) -> LockErrorView {
        match self {
            LockError::NoDependencies => LockErrorView::NoDependencies,
            LockError::MalformedLine { line, missing } => LockErrorView::MalformedLine {
                line: line@,
                missing: *missing,
            },
        }
    }
}

/// The marker that precedes the effective registry name of a patched entry.
pub open spec fn patched_marker() -> Seq<char> {
    "<patched>"@
}

/// The fields `(path_name, registry_name, version)` of one lock entry, as
/// written: the first words of the entry, a `<patched>` marker in second
/// place skipped. What follows the version is ignored.
pub open spec fn fields_of_line(line: Seq<char>) -> Result<
    (Seq<char>, Seq<char>, Seq<char>),
    MissingField,
> {
    let tokens = words_of(line);
    if tokens.len() < 1 {
        Err(MissingField::PathName)
    } else if tokens.len() < 2 {
        Err(MissingField::RegistryName)
    } else if tokens[1] == patched_marker() {
        if tokens.len() < 3 {
            Err(MissingField::PatchedRegistryName)
        } else if tokens.len() < 4 {
            Err(MissingField::Version)
        } else {
            Ok((tokens[0], tokens[2], tokens[3]))
        }
    } else if tokens.len() < 3 {
        Err(MissingField::Version)
    } else {
        Ok((tokens[0], tokens[1], tokens[2]))
    }
}

/// The lock entry of the well-formed shape `path_name [<patched>]
/// registry_name version [source]`.
pub open spec fn lock_line(
    path_name: Seq<char>,
    patched: bool,
    registry_name: Seq<char>,
    version: Seq<char>,
    source: Option<Seq<char>>,
) -> Seq<char> {
    let tail = match source {
        Some(locator) => registry_name.push(' ') + (version.push(' ') + locator),
        None => registry_name.push(' ') + version,
    };
    if patched {
        path_name.push(' ') + (patched_marker().push(' ') + tail)
    } else {
        path_name.push(' ') + tail
    }
}

/// A well-formed lock entry gives back the fields it was written from: the
/// path name, the registry name and the version, whether or not the entry is
/// patched and whatever follows the version.
pub proof fn lemma_well_formed_line(
    path_name: Seq<char>,
    patched: bool,
    registry_name: Seq<char>,
    version: Seq<char>,
    source: Option<Seq<char>>,
)
    requires
        is_word(path_name),
        is_word(registry_name),
        is_word(version),
        !patched ==> registry_name != patched_marker(),
    ensures
        fields_of_line(lock_line(path_name, patched, registry_name, version, source)) == Ok::<
            (Seq<char>, Seq<char>, Seq<char>),
            MissingField,
        >((path_name, registry_name, version)),
{
    reveal_strlit("<patched>");
    let marker = patched_marker();
    assert(is_word(marker)) by {
        assert forall|k: int| 0 <= k < marker.len() implies !crate::text::is_space(
            #[trigger] marker[k],
        ) by {
            if k == 0 {
            } else if k == 1 {
            } else if k == 2 {
            } else if k == 3 {
            } else if k == 4 {
            } else if k == 5 {
            } else if k == 6 {
            } else if k == 7 {
            } else {
            }
        }
    }
    let after_version = match source {
        Some(locator) => version.push(' ') + locator,
        None => version,
    };
    let after_registry = words_of(after_version);
    match source {
        Some(locator) => {
            lemma_words_cons(version, locator);
        },
        None => {
            lemma_words_one(version);
        },
    }
    assert(after_registry.len() >= 1 && after_registry[0] == version);
    let tail = registry_name.push(' ') + after_version;
    lemma_words_cons(registry_name, after_version);
    assert(words_of(tail) == seq![registry_name] + after_registry);
    if patched {
        lemma_words_cons(marker, tail);
        lemma_words_cons(path_name, marker.push(' ') + tail);
        let tokens = words_of(lock_line(path_name, patched, registry_name, version, source));
        assert(tokens == seq![path_name] + (seq![marker] + (seq![registry_name] + after_registry)));
        assert(tokens[1] == marker);
    } else {
        lemma_words_cons(path_name, tail);
        let tokens = words_of(lock_line(path_name, patched, registry_name, version, source));
        assert(tokens == seq![path_name] + (seq![registry_name] + after_registry));
        assert(tokens[1] == registry_name);
    }
}

/// The dependency that the fields of a lock entry declare under `rules`: the
/// registry name is normalised, the pair of name and version is resolved
/// under the rules, and the resolved version is read again.
pub open spec fn dependency_of(
    fields: (Seq<char>, Seq<char>, Seq<char>),
    rules: Seq<PackageRewrite>,
) -> LockDependencyView {
    let outcome = resolved(rules, registry_name_of(fields.1), version_text(version_of(fields.2)));
    LockDependencyView {
        registry_name: outcome.1,
        path_name: fields.0,
        version: version_of(outcome.2),
        is_rewritten: outcome.0,
    }
}

/// Whether each of `deps` that no rule has replaced has the version that
/// its entry among `lines` spells: reading the text of a version again gives
/// the version back.
pub open spec fn keeps_versions(deps: Seq<LockDependencyView>, lines: Seq<Seq<char>>) -> bool {
    forall|k: int|
        0 <= k < deps.len() && !(#[trigger] deps[k]).is_rewritten ==> deps[k].version == version_of(
            fields_of_line(lines[k])->Ok_0.2,
        )
}

/// The dependencies that `lines` declare under `rules`, or the first entry
/// that lacks a field.
pub open spec fn dependencies_of_lines(lines: Seq<Seq<char>>, rules: Seq<PackageRewrite>) -> Result<
    Seq<LockDependencyView>,
    LockErrorView,
> {
    let bad = first_index(lines.len() as int, |i: int| fields_of_line(lines[i]) is Err);
    if 0 <= bad < lines.len() {
        Err(
            LockErrorView::MalformedLine {
                line: lines[bad],
                missing: fields_of_line(lines[bad])->Err_0,
            },
        )
    } else {
        Ok(Seq::new(lines.len(), |i: int| dependency_of(fields_of_line(lines[i])->Ok_0, rules)))
    }
}

/// The dependencies that `lock` declares under `rules`.
pub open spec fn dependencies_of(lock: PackageLock, rules: Seq<PackageRewrite>) -> Result<
    Seq<LockDependencyView>,
    LockErrorView,
> {
    match lock.dependencies {
        None => Err(LockErrorView::NoDependencies),
        Some(lines) => dependencies_of_lines(strings_of(lines@), rules),
    }
}

/// The view of a result of `PackageLock::parse_lock_dependencies`.
pub open spec fn parsed_view(r: Result<Vec<LockDependency>, LockError>) -> Result<
    Seq<LockDependencyView>,
    LockErrorView,
> {
    match r {
        Ok(deps) => Ok(dependencies_view(deps@)),
        Err(e) => Err(e@),
    }
}

/// The view of a result of `lock_line_fields`.
pub open spec fn fields_view(r: Result<(String, String, String), MissingField>) -> Result<
    (Seq<char>, Seq<char>, Seq<char>),
    MissingField,
> {
    match r {
        Ok(f) => Ok((f.0@, f.1@, f.2@)),
        Err(e) => Err(e),
    }
}

/// Reads the fields `(path_name, registry_name, version)` of one lock entry.
pub fn lock_line_fields(line: &str) -> (r: Result<(String, String, String), MissingField>)
    ensures
        fields_view(r) == fields_of_line(line@),
{
    let chars = chars_of(line);
    let tokens = words(&chars);
    let marker = chars_of("<patched>");
    proof {
        assert forall|k: int| 0 <= k < tokens@.len() implies #[trigger] views_of(tokens@)[k]
            == tokens@[k]@ by {}
    }
    if tokens.len() < 1 {
        return Err(MissingField::PathName);
    }
    if tokens.len() < 2 {
        return Err(MissingField::RegistryName);
    }
    let mut at: usize = 1;
    if chars_eq(&tokens[1], &marker) {
        if tokens.len() < 3 {
            return Err(MissingField::PatchedRegistryName);
        }
        at = 2;
    }
    if tokens.len() < at + 2 {
        return Err(MissingField::Version);
    }
    Ok((string_of(&tokens[0]), string_of(&tokens[at]), string_of(&tokens[at + 1])))
}

impl PackageLock {
    /// Lists the dependencies that the lock declares, each resolved under
    /// `rewrites`. A lock without a dependency list gives `NoDependencies`;
    /// the first entry that lacks a field gives `MalformedLine`.
    pub fn parse_lock_dependencies(&self, rewrites: &Vec<PackageRewrite>) -> (r: Result<
        Vec<LockDependency>,
        LockError,
    >)
        ensures
            parsed_view(r) == dependencies_of(*self, rewrites@),
            r matches Ok(deps) ==> keeps_versions(
                dependencies_view(deps@),
                strings_of(self.dependencies->Some_0@),
            ),
    {
        let lines = match &self.dependencies {
            None => {
                return Err(LockError::NoDependencies);
            },
            Some(lines) => lines,
        };
        assert(self.dependencies == Some(*lines));
        let ghost texts = strings_of(lines@);
        let ghost is_bad = |i: int| fields_of_line(texts[i]) is Err;
        let mut list: Vec<LockDependency> = Vec::new();
        let mut n: usize = 0;
        while n < lines.len()
            invariant
                n <= lines.len(),
                self.dependencies == Some(*lines),
                texts == strings_of(lines@),
                is_bad == (|i: int| fields_of_line(texts[i]) is Err),
                forall|k: int| 0 <= k < n ==> !(#[trigger] is_bad(k)),
                list@.len() == n,
                forall|k: int|
                    0 <= k < n ==> (#[trigger] list@[k])@ == dependency_of(
                        fields_of_line(texts[k])->Ok_0,
                        rewrites@,
                    ),
                forall|k: int|
                    0 <= k < n && !(#[trigger] list@[k]).is_rewritten ==> list@[k].version@
                        == version_of(fields_of_line(texts[k])->Ok_0.2),
            decreases lines.len() - n,
        {
            let line = lines[n].as_str();
            assert(texts[n as int] == line@);
            let (path_name, registry_token, raw_version) = match lock_line_fields(line) {
                Ok(fields) => fields,
                Err(missing) => {
                    proof {
                        assert(is_bad(n as int));
                        lemma_first_index_is(texts.len() as int, is_bad, n as int);
                    }
                    return Err(LockError::MalformedLine { line: line.to_owned(), missing });
                },
            };
            assert(!is_bad(n as int));
            let version = PackageVersion::new(raw_version.as_str());
            let registry_name = format_registry_name(registry_token.as_str());
            let version_text = version.to_string();
            let (rewritten, registry_name, version) = resolve_package(
                rewrites,
                registry_name.as_str(),
                version_text.as_str(),
            );
            let version = PackageVersion::new(version.as_str());
            list.push(LockDependency { registry_name, path_name, version, is_rewritten: rewritten });
            n = n + 1;
        }
        proof {
            lemma_first_index_is(texts.len() as int, is_bad, texts.len() as int);
            assert(dependencies_view(list@) =~= Seq::new(
                texts.len(),
                |i: int| dependency_of(fields_of_line(texts[i])->Ok_0, rewrites@),
            ));
            assert forall|k: int|
                0 <= k < list@.len() && !(#[trigger] dependencies_view(
                    list@,
                )[k]).is_rewritten implies dependencies_view(list@)[k].version == version_of(
                fields_of_line(texts[k])->Ok_0.2,
            ) by {
                assert(dependencies_view(list@)[k] == list@[k]@);
            }
        }
        Ok(list)
    }
}

} // verus!
