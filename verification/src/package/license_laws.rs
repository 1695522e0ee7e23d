//! What holds of the license state of every package in every registry.

use crate::package::license_extractor::{
    blocking_files, dependency_files, files_under, has_verdict, Blocking, PackageLicenseView,
    ReasonView, ScriptLicenseView,
};
use crate::package::package_lock::{version_text, LockDependencyView};
use crate::package::{
    blocking_of, declared, lemma_path_grows, license_names, license_of, start_path, valid_path,
    Package,
};
use crate::package_registry::{PackageRegistry, QueryView, RegistryErrorView};
use vstd::prelude::*;

verus! {

/// A package with an unlicensed script is never reported as licensed: it is
/// unlicensed for its own scripts, in every registry, along every path and
/// whatever its dependencies are.
pub proof fn lemma_unlicensed_script_decides(
    package: Package,
    registry: PackageRegistry,
    path: Seq<usize>,
)
    requires
        valid_path(registry, path),
        has_verdict(package.licenses@, ScriptLicenseView::Unlicensed),
    ensures
        license_of(package, registry, path) == Ok::<PackageLicenseView, RegistryErrorView>(
            PackageLicenseView::Unlicensed(
                ReasonView::Scripts(files_under(package.licenses@, ScriptLicenseView::Unlicensed)),
            ),
        ),
{
}

/// The same, asked of the registry by name: the answer is `false`, with the
/// paths of the package's own unlicensed scripts.
pub proof fn lemma_unlicensed_script_decides_by_name(registry: PackageRegistry, name: Seq<char>)
    requires
        0 <= registry.position_of(QueryView::RegistryName(name)) < registry.packages@.len(),
        has_verdict(
            registry.packages@[registry.position_of(QueryView::RegistryName(name))].1.licenses@,
            ScriptLicenseView::Unlicensed,
        ),
    ensures
        registry.licensed(name) == Ok::<(bool, Seq<Seq<char>>), RegistryErrorView>(
            (
                false,
                files_under(
                    registry.packages@[registry.position_of(
                        QueryView::RegistryName(name),
                    )].1.licenses@,
                    ScriptLicenseView::Unlicensed,
                ),
            ),
        ),
{
    let i = registry.position_of(QueryView::RegistryName(name));
    let package = registry.packages@[i].1;
    let path = start_path(package, registry);
    assert(valid_path(registry, path));
    lemma_unlicensed_script_decides(package, registry, path);
}

/// Whether the dependency `dep` stands in the way of no package: it is
/// rewritten, or it resolves to a package that is on `path` or is licensed.
pub open spec fn is_clear(registry: PackageRegistry, path: Seq<usize>, dep: LockDependencyView) -> bool {
    let i = registry.resolved_position(dep);
    dep.is_rewritten || (0 <= i < registry.packages@.len() && (path.contains(i as usize)
        || license_of(registry.packages@[i].1, registry, path.push(i as usize)) matches Ok(
        PackageLicenseView::Licensed(_),
    )))
}

/// Dependencies that are all clear block nothing.
pub proof fn lemma_clear_dependencies_block_nothing(
    package: Package,
    registry: PackageRegistry,
    path: Seq<usize>,
    deps: Seq<LockDependencyView>,
    n: nat,
)
    requires
        valid_path(registry, path),
        n <= deps.len(),
        forall|k: int| 0 <= k < n ==> is_clear(registry, path, #[trigger] deps[k]),
    ensures
        blocking_of(package, registry, path, deps, n) == Ok::<Seq<Blocking>, RegistryErrorView>(
            Seq::empty(),
        ),
    decreases n,
{
    if n > 0 {
        lemma_clear_dependencies_block_nothing(package, registry, path, deps, (n - 1) as nat);
        assert(is_clear(registry, path, deps[n - 1]));
    }
}

/// A package whose scripts are all licensed and whose dependencies are all
/// clear is reported as licensed, with the licenses of its scripts.
pub proof fn lemma_licensed_when_clear(package: Package, registry: PackageRegistry, path: Seq<usize>)
    requires
        valid_path(registry, path),
        !has_verdict(package.licenses@, ScriptLicenseView::Unlicensed),
        forall|k: int|
            0 <= k < declared(package, registry.rewrites@).len() ==> is_clear(
                registry,
                path,
                #[trigger] declared(package, registry.rewrites@)[k],
            ),
    ensures
        license_of(package, registry, path) == Ok::<PackageLicenseView, RegistryErrorView>(
            PackageLicenseView::Licensed(
                license_names(package.licenses@, package.licenses@.len() as int),
            ),
        ),
{
    let deps = declared(package, registry.rewrites@);
    lemma_clear_dependencies_block_nothing(package, registry, path, deps, deps.len());
}

/// Whether `registry` holds no unlicensed script and no dependency that it
/// cannot resolve, rewritten dependencies set aside.
pub open spec fn is_clean(registry: PackageRegistry) -> bool {
    forall|i: int|
        0 <= i < registry.packages@.len() ==> {
            &&& !has_verdict(
                (#[trigger] registry.packages@[i]).1.licenses@,
                ScriptLicenseView::Unlicensed,
            )
            &&& forall|k: int|
                0 <= k < declared(registry.packages@[i].1, registry.rewrites@).len() ==> {
                    let dep = #[trigger] declared(registry.packages@[i].1, registry.rewrites@)[k];
                    dep.is_rewritten || 0 <= registry.resolved_position(dep)
                        < registry.packages@.len()
                }
        }
}

/// In a clean registry every package is reported as licensed, along every
/// path, cycles or not.
pub proof fn lemma_clean_registry_is_licensed(registry: PackageRegistry, i: int, path: Seq<usize>)
    requires
        is_clean(registry),
        valid_path(registry, path),
        0 <= i < registry.packages@.len(),
    ensures
        license_of(registry.packages@[i].1, registry, path) matches Ok(
            PackageLicenseView::Licensed(_),
        ),
    decreases registry.packages@.len() - path.len(),
{
    let package = registry.packages@[i].1;
    let deps = declared(package, registry.rewrites@);
    assert forall|k: int| 0 <= k < deps.len() implies is_clear(registry, path, #[trigger] deps[k]) by {
        let dep = deps[k];
        let j = registry.resolved_position(dep);
        if !dep.is_rewritten && !path.contains(j as usize) {
            lemma_path_grows(registry, path, j as usize);
            lemma_clean_registry_is_licensed(registry, j, path.push(j as usize));
        }
    }
    lemma_licensed_when_clear(package, registry, path);
}

/// Every dependency that is looked at and found unlicensed is listed among
/// the blocking dependencies, with its reason: none is dropped once one has
/// been found.
pub proof fn lemma_every_unlicensed_dependency_blocks(
    package: Package,
    registry: PackageRegistry,
    path: Seq<usize>,
    deps: Seq<LockDependencyView>,
    n: nat,
    k: int,
)
    requires
        valid_path(registry, path),
        0 <= k < n <= deps.len(),
        blocking_of(package, registry, path, deps, n) is Ok,
        !deps[k].is_rewritten,
        !path.contains(registry.resolved_position(deps[k]) as usize),
    ensures
        0 <= registry.resolved_position(deps[k]) < registry.packages@.len(),
        license_of(
            registry.packages@[registry.resolved_position(deps[k])].1,
            registry,
            path.push(registry.resolved_position(deps[k]) as usize),
        ) matches Ok(PackageLicenseView::Unlicensed(reason)) ==> blocking_of(
            package,
            registry,
            path,
            deps,
            n,
        )->Ok_0.contains((deps[k].registry_name, version_text(deps[k].version), reason)),
    decreases n,
{
    let before = blocking_of(package, registry, path, deps, (n - 1) as nat);
    let all = blocking_of(package, registry, path, deps, n)->Ok_0;
    if k < n - 1 {
        lemma_every_unlicensed_dependency_blocks(package, registry, path, deps, (n - 1) as nat, k);
        let i = registry.resolved_position(deps[k]);
        match license_of(registry.packages@[i].1, registry, path.push(i as usize)) {
            Ok(PackageLicenseView::Unlicensed(reason)) => {
                let entry = (deps[k].registry_name, version_text(deps[k].version), reason);
                let j = choose|j: int| 0 <= j < before->Ok_0.len() && before->Ok_0[j] == entry;
                assert(all[j] == entry);
            },
            _ => {},
        }
    } else {
        let i = registry.resolved_position(deps[k]);
        match license_of(registry.packages@[i].1, registry, path.push(i as usize)) {
            Ok(PackageLicenseView::Unlicensed(reason)) => {
                assert(all.last() == (deps[k].registry_name, version_text(deps[k].version), reason));
            },
            _ => {},
        }
    }
}

/// The files of the first `n` blocking dependencies hold the files of each
/// of them.
pub proof fn lemma_dependency_files_hold(deps: Seq<Blocking>, n: nat, k: int, file: Seq<char>)
    requires
        0 <= k < n <= deps.len(),
        blocking_files(deps[k].2).contains(file),
    ensures
        dependency_files(deps, n).contains(file),
    decreases n,
{
    let before = dependency_files(deps, (n - 1) as nat);
    let own = blocking_files(deps[n - 1].2);
    if k < n - 1 {
        lemma_dependency_files_hold(deps, (n - 1) as nat, k, file);
        let j = choose|j: int| 0 <= j < before.len() && before[j] == file;
        assert((before + own)[j] == file);
    } else {
        let j = choose|j: int| 0 <= j < own.len() && own[j] == file;
        assert((before + own)[before.len() + j] == file);
    }
}

/// The files reported for a package that is unlicensed for its dependencies
/// hold every unlicensed file of every blocking dependency, not only those
/// of the first.
pub proof fn lemma_blocking_files_are_complete(deps: Seq<Blocking>, k: int, file: Seq<char>)
    requires
        0 <= k < deps.len(),
        blocking_files(deps[k].2).contains(file),
    ensures
        blocking_files(ReasonView::Dependencies(deps)).contains(file),
{
    lemma_dependency_files_hold(deps, deps.len(), k, file);
}

} // verus!
