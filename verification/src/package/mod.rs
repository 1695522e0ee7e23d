//! One package: its names, its pinned dependencies and its license state.

pub mod license_extractor;
pub mod license_laws;
pub mod license_order;
pub mod package_lock;
pub mod package_name;
pub mod package_rewrite;
pub mod package_tree;
pub mod stream;

use crate::package::license_extractor::{
    compute_license_information, files_under, has_verdict, lemma_entries_view,
    is_license_information, Blocking, ClassifierConfig, PackageLicense, PackageLicenseView,
    ReasonView, ScriptFile, ScriptLicense, ScriptLicenseView, ScriptLicenses,
    UnlicensedPackageReason, VerdictFiles,
};
use crate::package::package_lock::{
    dependencies_of, dependencies_view, version_text, LockDependencyView, LockError,
    LockErrorView, MissingField, PackageLock,
};
use crate::package::package_name::{identity_of, PackageName, PackageNameView};
use crate::package::package_rewrite::{resolve_package, resolved, PackageRewrite};
use crate::package_registry::{
    PackageQuery, PackageRegistry, QueryView, RegistryError, RegistryErrorView,
};
use crate::scan::lemma_distinct_bounded;
use crate::text::{copy_strings, str_eq, strings_of};
use vstd::prelude::*;
use vstd::string::StringExecFns;

verus! {

/// Whether a package goes into what is emitted.
#[derive(Debug, PartialEq, Eq, PartialOrd, Ord)]
pub enum IncludeInEmit {
    Included,
    NotIncluded(NotIncludedReason),
}

/// Why a package is left out of what is emitted.
#[derive(Debug, PartialEq, Eq, PartialOrd, Ord)]
pub enum NotIncludedReason {
    /// A rewrite rule replaces the package.
    OverwrittenPackage,
    /// The package is not licensed.
    Unlicensed(UnlicensedPackageReason),
}

/// One package: where it was found, its names, its lock and the verdicts of
/// its scripts.
#[derive(Debug)]
pub struct Package {
    pub package_path: String,
    pub name: PackageName,
    pub lock: PackageLock,
    pub licenses: ScriptLicenses,
}

/// Why a package could not be made.
#[derive(Debug, Clone, PartialEq, Eq)]
pub enum PackageError {
    /// The name in the lock is no valid identity.
    InvalidIdentity { name: String },
    /// An entry of the lock's dependency list lacks a field.
    MalformedLock { line: String, missing: MissingField },
    /// The package has no directory that holds its sources.
    MissingSources,
}

/// What a `PackageError` holds.
pub enum PackageErrorView {
    InvalidIdentity { name: Seq<char> },
    MalformedLock { line: Seq<char>, missing: MissingField },
    MissingSources,
}

impl View for PackageError {
    type V = PackageErrorView;

    open spec fn view(&self) -> PackageErrorView {
        match self {
            PackageError::InvalidIdentity { name } => PackageErrorView::InvalidIdentity {
                name: name@,
            },
            PackageError::MalformedLock { line, missing } => PackageErrorView::MalformedLock {
                line: line@,
                missing: *missing,
            },
            PackageError::MissingSources => PackageErrorView::MissingSources,
        }
    }
}

/// Whether `rules` replace the package of registry name `registry_name` at
/// `version`.
pub open spec fn is_rewritten(
    registry_name: Seq<char>,
    version: Seq<char>,
    rules: Seq<PackageRewrite>,
) -> bool {
    resolved(rules, registry_name, version).0
}

/// The names of the package found under `path_name` with the lock `lock`,
/// or why there is no such package: the name in the lock must be a valid
/// identity, and every entry of the dependency list must have its fields.
pub open spec fn new_package(path_name: Seq<char>, lock: PackageLock, rules: Seq<PackageRewrite>) -> Result<
    PackageNameView,
    PackageErrorView,
> {
    match identity_of(path_name, lock.name@) {
        Err(name) => Err(PackageErrorView::InvalidIdentity { name }),
        Ok(name) => match dependencies_of(lock, rules) {
            Err(LockErrorView::MalformedLine { line, missing }) => Err(
                PackageErrorView::MalformedLock { line, missing },
            ),
            _ => Ok(name),
        },
    }
}

/// Whether `map` holds the verdicts of a package of the names `name` with
/// the lock `lock` and the scripts `scripts`. A package that `rules` replace
/// has no verdicts. For any other, each script that is looked at stands
/// under a verdict for it.
pub open spec fn licenses_made(
    map: Seq<VerdictFiles>,
    name: PackageNameView,
    lock: PackageLock,
    scripts: Seq<ScriptFile>,
    rules: Seq<PackageRewrite>,
    config: ClassifierConfig,
) -> bool {
    if is_rewritten(name.registry_name, lock.version@, rules) {
        map == Seq::<VerdictFiles>::empty()
    } else {
        is_license_information(scripts, config, map)
    }
}

/// Whether `package` is a package made from the given parts: it holds
/// `package_path` and `lock` as given, the names of `new_package`, and
/// verdicts for its scripts.
pub open spec fn is_new_package(
    package: Package,
    package_path: String,
    path_name: Seq<char>,
    lock: PackageLock,
    scripts: Seq<ScriptFile>,
    rules: Seq<PackageRewrite>,
    config: ClassifierConfig,
) -> bool {
    &&& new_package(path_name, lock, rules) == Ok::<PackageNameView, PackageErrorView>(
        package.name@,
    )
    &&& licenses_made(package.licenses@, package.name@, lock, scripts, rules, config)
    &&& package.lock == lock
    &&& package.package_path == package_path
}

/// The directory that holds the sources of a package, by name: `src` where
/// the package has such a directory, else the directory named like the
/// package (its scoped name, or its name as given where it has no scope).
pub open spec fn source_directory(name: PackageNameView, directories: Seq<Seq<char>>) -> Option<
    Seq<char>,
> {
    let own = match name.scoped_name {
        Some(scoped) => scoped,
        None => name.unprocessed_name,
    };
    if directories.contains("src"@) {
        Some("src"@)
    } else if directories.contains(own) {
        Some(own)
    } else {
        None
    }
}

/// Whether `names` holds `name`.
fn holds_name(names: &Vec<String>, name: &str) -> (r: bool)
    ensures
        r == strings_of(names@).contains(name@),
{
    let ghost all = strings_of(names@);
    let mut i: usize = 0;
    while i < names.len()
        invariant
            i <= names.len(),
            all == strings_of(names@),
            forall|k: int| 0 <= k < i ==> all[k] != name@,
        decreases names.len() - i,
    {
        assert(all[i as int] == names@[i as int]@);
        if str_eq(names[i].as_str(), name) {
            return true;
        }
        i = i + 1;
    }
    false
}

/// The path of the directory that holds the sources of the package at
/// `package_path`, given the names of the directories found in it:
/// `package_path`, a `/` and the name of the source directory.
pub fn get_package_src_path(
    package_path: &str,
    package_name: &PackageName,
    directories: &Vec<String>,
) -> (r: Result<String, PackageError>)
    ensures
        match source_directory(package_name@, strings_of(directories@)) {
            Some(directory) => r matches Ok(path) && path@ == package_path@.push('/') + directory,
            None => r == Err::<String, PackageError>(PackageError::MissingSources),
        },
{
    let own = match &package_name.scoped_name {
        Some(scoped) => scoped.as_str(),
        None => package_name.unprocessed_name.as_str(),
    };
    let directory = if holds_name(directories, "src") {
        "src"
    } else if holds_name(directories, own) {
        own
    } else {
        return Err(PackageError::MissingSources);
    };
    let mut path = package_path.to_owned();
    path.push('/');
    path.append(directory);
    Ok(path)
}

/// The names of the licenses in the first `n` entries of `map`, in order.
pub open spec fn license_names(map: Seq<VerdictFiles>, n: int) -> Seq<Seq<char>>
    decreases n,
{
    if n <= 0 {
        Seq::empty()
    } else {
        match map[n - 1].0 {
            ScriptLicenseView::Licensed(name) => license_names(map, n - 1).push(name),
            ScriptLicenseView::Unlicensed => license_names(map, n - 1),
        }
    }
}

/// Whether `path` is a path through `registry`: positions of packages, none
/// of them twice.
pub open spec fn valid_path(registry: PackageRegistry, path: Seq<usize>) -> bool {
    &&& path.no_duplicates()
    &&& forall|k: int| 0 <= k < path.len() ==> path[k] < registry.packages@.len()
}

/// The dependencies that `package` declares, as far as they can be read; an
/// unreadable list counts as empty.
pub open spec fn declared(package: Package, rules: Seq<PackageRewrite>) -> Seq<LockDependencyView> {
    match dependencies_of(package.lock, rules) {
        Ok(deps) => deps,
        Err(_) => Seq::empty(),
    }
}

/// The license state of `package` in `registry`, reached along `path`.
///
/// A package with an unlicensed script is unlicensed for its scripts,
/// whatever it depends on. Else it is unlicensed for its dependencies where
/// one of them is, and licensed, with the licenses of its scripts, where
/// none is.
pub open spec fn license_of(package: Package, registry: PackageRegistry, path: Seq<usize>) -> Result<
    PackageLicenseView,
    RegistryErrorView,
>
    decreases registry.packages@.len() - path.len(), 1nat, 0nat,
    when valid_path(registry, path)
{
    if has_verdict(package.licenses@, ScriptLicenseView::Unlicensed) {
        Ok(
            PackageLicenseView::Unlicensed(
                ReasonView::Scripts(files_under(package.licenses@, ScriptLicenseView::Unlicensed)),
            ),
        )
    } else {
        let deps = declared(package, registry.rewrites@);
        match blocking_of(package, registry, path, deps, deps.len()) {
            Err(e) => Err(e),
            Ok(blocking) => if blocking.len() > 0 {
                Ok(PackageLicenseView::Unlicensed(ReasonView::Dependencies(blocking)))
            } else {
                Ok(
                    PackageLicenseView::Licensed(
                        license_names(package.licenses@, package.licenses@.len() as int),
                    ),
                )
            },
        }
    }
}

/// The dependencies among the first `n` of `deps` that keep `package` from
/// being licensed, or the first that the registry cannot resolve.
///
/// A rewritten dependency is passed over: it stands for a replacement that
/// is licensed. So is a dependency that resolves to a package on `path`: a
/// package that is being looked at counts as licensed, which ends every
/// cycle. Any other dependency is resolved and looked at in turn, with its
/// position added to the path.
pub open spec fn blocking_of(
    package: Package,
    registry: PackageRegistry,
    path: Seq<usize>,
    deps: Seq<LockDependencyView>,
    n: nat,
) -> Result<Seq<Blocking>, RegistryErrorView>
    decreases registry.packages@.len() - path.len(), 0nat, n,
    when valid_path(registry, path)
{
    if n == 0 {
        Ok(Seq::empty())
    } else {
        match blocking_of(package, registry, path, deps, (n - 1) as nat) {
            Err(e) => Err(e),
            Ok(before) => {
                let dep = deps[n - 1];
                let i = registry.resolved_position(dep);
                if dep.is_rewritten {
                    Ok(before)
                } else if !(0 <= i < registry.packages@.len()) {
                    Err(
                        RegistryErrorView::UnresolvedDependency {
                            dependant: package.name.path_name@,
                            name: dep.registry_name,
                            version: version_text(dep.version),
                        },
                    )
                } else if path.contains(i as usize) {
                    Ok(before)
                } else {
                    proof {
                        lemma_path_grows(registry, path, i as usize);
                    }
                    match license_of(registry.packages@[i].1, registry, path.push(i as usize)) {
                        Err(e) => Err(e),
                        Ok(PackageLicenseView::Licensed(_)) => Ok(before),
                        Ok(PackageLicenseView::Unlicensed(reason)) => Ok(
                            before.push((dep.registry_name, version_text(dep.version), reason)),
                        ),
                    }
                }
            },
        }
    }
}

/// Once a dependency cannot be resolved, looking at further dependencies
/// changes nothing.
pub proof fn lemma_blocking_error_stays(
    package: Package,
    registry: PackageRegistry,
    path: Seq<usize>,
    deps: Seq<LockDependencyView>,
    k: nat,
    m: nat,
)
    requires
        valid_path(registry, path),
        k <= m,
        blocking_of(package, registry, path, deps, k) is Err,
    ensures
        blocking_of(package, registry, path, deps, m) == blocking_of(package, registry, path, deps, k),
    decreases m,
{
    if k < m {
        lemma_blocking_error_stays(package, registry, path, deps, k, (m - 1) as nat);
    }
}

/// A path that takes in a package it does not hold yet stays a path, and
/// was shorter than the registry.
pub proof fn lemma_path_grows(registry: PackageRegistry, path: Seq<usize>, i: usize)
    requires
        valid_path(registry, path),
        i < registry.packages@.len(),
        !path.contains(i),
    ensures
        valid_path(registry, path.push(i)),
        path.len() < registry.packages@.len(),
{
    let next = path.push(i);
    assert forall|a: int, b: int| 0 <= a < next.len() && 0 <= b < next.len() && a != b implies next[a]
        != next[b] by {
        if a < path.len() {
            assert(path.contains(next[a]));
        }
        if b < path.len() {
            assert(path.contains(next[b]));
        }
    }
    lemma_distinct_bounded(next, registry.packages@.len() as int);
}


/// The path on which the look at `package` begins: the position of the
/// package of `registry` that has its path name, where there is one, so that
/// a cycle ends where it comes back to the package; else the empty path.
pub open spec fn start_path(package: Package, registry: PackageRegistry) -> Seq<usize> {
    let i = registry.position_of(QueryView::PathName(package.name.path_name@));
    if 0 <= i < registry.packages@.len() {
        seq![i as usize]
    } else {
        Seq::empty()
    }
}

/// The license state of `package` in `registry`.
pub open spec fn package_license(package: Package, registry: PackageRegistry) -> Result<
    PackageLicenseView,
    RegistryErrorView,
> {
    license_of(package, registry, start_path(package, registry))
}

/// The view of a result of `Package::is_package_licensed`.
pub open spec fn license_view(r: Result<PackageLicense, RegistryError>) -> Result<
    PackageLicenseView,
    RegistryErrorView,
> {
    match r {
        Ok(license) => Ok(license@),
        Err(e) => Err(e@),
    }
}

/// Whether `r` is an outcome of making a package from the given parts: a
/// package made from them, or the error of `new_package`.
pub open spec fn package_made(
    r: Result<Package, PackageError>,
    package_path: String,
    path_name: Seq<char>,
    lock: PackageLock,
    scripts: Seq<ScriptFile>,
    rules: Seq<PackageRewrite>,
    config: ClassifierConfig,
) -> bool {
    match r {
        Ok(package) => is_new_package(
            package,
            package_path,
            path_name,
            lock,
            scripts,
            rules,
            config,
        ),
        Err(e) => new_package(path_name, lock, rules) == Err::<PackageNameView, PackageErrorView>(
            e@,
        ),
    }
}

/// Whether `path` holds `i`.
pub(crate) fn path_holds(path: &Vec<usize>, i: usize) -> (r: bool)
    ensures
        r == path@.contains(i),
{
    let mut k: usize = 0;
    while k < path.len()
        invariant
            k <= path.len(),
            forall|j: int| 0 <= j < k ==> path@[j] != i,
        decreases path.len() - k,
    {
        if path[k] == i {
            return true;
        }
        k = k + 1;
    }
    false
}

/// `path` with `i` at its end.
pub(crate) fn path_with(path: &Vec<usize>, i: usize) -> (r: Vec<usize>)
    ensures
        r@ == path@.push(i),
{
    let mut r: Vec<usize> = Vec::new();
    let mut k: usize = 0;
    while k < path.len()
        invariant
            k <= path.len(),
            r@ == path@.take(k as int),
        decreases path.len() - k,
    {
        r.push(path[k]);
        k = k + 1;
    }
    assert(path@.take(path.len() as int) == path@);
    r.push(i);
    r
}

impl Package {
    /// Makes the package found at `package_path` under the path component
    /// `path_name`, from its lock and the scripts of its source directory.
    pub fn new(
        package_path: String,
        path_name: &str,
        lock: PackageLock,
        scripts: &Vec<ScriptFile>,
        rewrites: &Vec<PackageRewrite>,
        config: &ClassifierConfig,
    ) -> (r: Result<Self, PackageError>)
        ensures
            package_made(r, package_path, path_name@, lock, scripts@, rewrites@, *config),
    {
        let name = match PackageName::new(path_name, lock.name.as_str()) {
            Ok(name) => name,
            Err(e) => {
                return Err(PackageError::InvalidIdentity { name: e.name });
            },
        };
        match lock.parse_lock_dependencies(rewrites) {
            Err(LockError::MalformedLine { line, missing }) => {
                return Err(PackageError::MalformedLock { line, missing });
            },
            _ => {},
        }
        let (rewritten, _, _) = resolve_package(
            rewrites,
            name.registry_name.as_str(),
            lock.version.as_str(),
        );
        let licenses = if rewritten {
            ScriptLicenses::new()
        } else {
            compute_license_information(scripts, config)
        };
        Ok(Self { package_path, name, lock, licenses })
    }

    /// Whether a rewrite rule replaces this package, so that it is not to be
    /// emitted under its own name.
    pub fn is_package_rewritten(&self, rewrites: &Vec<PackageRewrite>) -> (r: bool)
        ensures
            r == is_rewritten(self.name.registry_name@, self.lock.version@, rewrites@),
    {
        let (rewritten, _, _) = resolve_package(
            rewrites,
            self.name.registry_name.as_str(),
            self.lock.version.as_str(),
        );
        rewritten
    }

    /// Whether the package holds unlicensed code that counts: a package that
    /// a rule replaces is never held against anyone.
    pub fn contains_unlicensed_code(&self, rewrites: &Vec<PackageRewrite>) -> (r: bool)
        ensures
            r == (!is_rewritten(self.name.registry_name@, self.lock.version@, rewrites@)
                && has_verdict(self.licenses@, ScriptLicenseView::Unlicensed)),
    {
        if self.is_package_rewritten(rewrites) {
            return false;
        }
        let unlicensed = ScriptLicense::Unlicensed;
        self.licenses.contains_key(&unlicensed)
    }

    /// The names of the licenses that the scripts of the package carry.
    fn licenses_found(&self) -> (r: Vec<String>)
        ensures
            strings_of(r@) == license_names(self.licenses@, self.licenses@.len() as int),
    {
        let mut names: Vec<String> = Vec::new();
        let mut n: usize = 0;
        assert(strings_of(names@) == Seq::<Seq<char>>::empty());
        while n < self.licenses.entries.len()
            invariant
                n <= self.licenses.entries.len(),
                strings_of(names@) == license_names(self.licenses@, n as int),
            decreases self.licenses.entries.len() - n,
        {
            let ghost before = strings_of(names@);
            assert(self.licenses@[n as int].0 == self.licenses.entries@[n as int].0@);
            match &self.licenses.entries[n].0 {
                ScriptLicense::Licensed(name) => {
                    names.push(name.clone());
                    assert(strings_of(names@) == before.push(name@));
                },
                ScriptLicense::Unlicensed => {},
            }
            n = n + 1;
        }
        names
    }

    /// The license state of the package in `registry`, reached along `path`.
    pub fn license_on_path(&self, registry: &PackageRegistry, path: &Vec<usize>) -> (r: Result<
        PackageLicense,
        RegistryError,
    >)
        requires
            valid_path(*registry, path@),
        ensures
            license_view(r) == license_of(*self, *registry, path@),
        decreases registry.packages@.len() - path@.len(),
    {
        let unlicensed = ScriptLicense::Unlicensed;
        match self.licenses.get(&unlicensed) {
            Some(paths) => {
                return Ok(
                    PackageLicense::Unlicensed(
                        UnlicensedPackageReason::UnlicensedScripts(copy_strings(paths)),
                    ),
                );
            },
            None => {},
        }
        let deps = match self.lock.parse_lock_dependencies(&registry.rewrites) {
            Ok(deps) => deps,
            Err(_) => Vec::new(),
        };
        let ghost views = declared(*self, registry.rewrites@);
        assert(dependencies_view(deps@) =~= views);
        let mut blocking: Vec<(String, String, UnlicensedPackageReason)> = Vec::new();
        let ghost mut found: Seq<Blocking> = Seq::empty();
        let mut n: usize = 0;
        while n < deps.len()
            invariant
                n <= deps.len(),
                valid_path(*registry, path@),
                !has_verdict(self.licenses@, ScriptLicenseView::Unlicensed),
                dependencies_view(deps@) == views,
                views == declared(*self, registry.rewrites@),
                blocking_of(*self, *registry, path@, views, n as nat) == Ok::<
                    Seq<Blocking>,
                    RegistryErrorView,
                >(found),
                found.len() == blocking@.len(),
                forall|k: int|
                    0 <= k < found.len() ==> found[k] == (
                        (#[trigger] blocking@[k]).0@,
                        blocking@[k].1@,
                        blocking@[k].2@,
                    ),
            decreases deps.len() - n,
        {
            let dep = &deps[n];
            assert(views[n as int] == dep@);
            if !dep.is_rewritten {
                let i = registry.resolve_position(dep);
                if i >= registry.packages.len() {
                    proof {
                        lemma_blocking_error_stays(
                            *self,
                            *registry,
                            path@,
                            views,
                            (n + 1) as nat,
                            views.len(),
                        );
                    }
                    return Err(
                        RegistryError::UnresolvedDependency {
                            dependant: self.name.path_name.clone(),
                            name: dep.registry_name.clone(),
                            version: dep.version.to_string(),
                        },
                    );
                }
                if !path_holds(path, i) {
                    let next = path_with(path, i);
                    proof {
                        lemma_path_grows(*registry, path@, i);
                    }
                    match registry.packages[i].1.license_on_path(registry, &next) {
                        Err(e) => {
                            proof {
                                lemma_blocking_error_stays(
                                    *self,
                                    *registry,
                                    path@,
                                    views,
                                    (n + 1) as nat,
                                    views.len(),
                                );
                            }
                            return Err(e);
                        },
                        Ok(PackageLicense::Licensed(_)) => {},
                        Ok(PackageLicense::Unlicensed(reason)) => {
                            proof {
                                found = found.push(
                                    (dep.registry_name@, version_text(dep.version@), reason@),
                                );
                            }
                            blocking.push((dep.registry_name.clone(), dep.version.to_string(), reason));
                        },
                    }
                }
            }
            n = n + 1;
        }
        if blocking.len() > 0 {
            let reason = UnlicensedPackageReason::UnlicensedDependencies(blocking);
            proof {
                lemma_entries_view(blocking@, blocking@.len());
            }
            assert(reason@->Dependencies_0 =~= found);
            return Ok(PackageLicense::Unlicensed(reason));
        }
        Ok(PackageLicense::Licensed(self.licenses_found()))
    }

    /// Whether the package is licensed: none of its scripts is unlicensed,
    /// and neither is any dependency that is not rewritten, nor any of
    /// theirs. A dependency that leads back to a package already being
    /// looked at, this one included where the registry holds it, counts as
    /// licensed.
    pub fn is_package_licensed(&self, package_registry: &PackageRegistry) -> (r: Result<
        PackageLicense,
        RegistryError,
    >)
        ensures
            license_view(r) == package_license(*self, *package_registry),
    {
        let path = self.start_path(package_registry);
        self.license_on_path(package_registry, &path)
    }

    /// The path on which a look at the package begins.
    pub(crate) fn start_path(&self, registry: &PackageRegistry) -> (path: Vec<usize>)
        ensures
            path@ == start_path(*self, *registry),
            valid_path(*registry, path@),
    {
        let mut path: Vec<usize> = Vec::new();
        let i = registry.position(PackageQuery::PathName(self.name.path_name.as_str()));
        if i < registry.packages.len() {
            path.push(i);
        }
        path
    }

    /// Whether the package goes into what is emitted: not where a rule
    /// replaces it, and not where it is found unlicensed.
    pub fn include_in_extractor_emit(&self, package_registry: &PackageRegistry) -> (r:
        IncludeInEmit)
        ensures
            is_rewritten(
                self.name.registry_name@,
                self.lock.version@,
                package_registry.rewrites@,
            ) ==> r == IncludeInEmit::NotIncluded(NotIncludedReason::OverwrittenPackage),
            !is_rewritten(self.name.registry_name@, self.lock.version@, package_registry.rewrites@)
                ==> match package_license(*self, *package_registry) {
                Ok(PackageLicenseView::Unlicensed(reason)) => r matches IncludeInEmit::NotIncluded(
                    NotIncludedReason::Unlicensed(given),
                ) && given@ == reason,
                _ => r == IncludeInEmit::Included,
            },
    {
        if self.is_package_rewritten(&package_registry.rewrites) {
            return IncludeInEmit::NotIncluded(NotIncludedReason::OverwrittenPackage);
        }
        match self.is_package_licensed(package_registry) {
            Ok(PackageLicense::Unlicensed(reason)) => IncludeInEmit::NotIncluded(
                NotIncludedReason::Unlicensed(reason),
            ),
            _ => IncludeInEmit::Included,
        }
    }
}

} // verus!
