//! What the documentation of a registry is written from.

use crate::package::license_extractor::{
    entries_view, lemma_entries_view, Blocking, PackageLicense, PackageLicenseView, ReasonView,
    ScriptLicense, UnlicensedPackageReason, VerdictFiles,
};
use crate::package::{is_rewritten, package_license, IncludeInEmit, Package};
use crate::package_registry::{
    PackageQuery, PackageRef, PackageRegistry, QueryView, RegistryError, RegistryErrorView,
};
use crate::text::{seq_lt, strings_of};
use vstd::prelude::*;
use vstd::seq_lib::{to_multiset_build, to_multiset_remove};
use vstd::string::StringExecFns;

verus! {

/// Whether `package` goes into what is emitted from `registry`: no rule
/// replaces it and it is not found unlicensed.
pub open spec fn is_included(package: Package, registry: PackageRegistry) -> bool {
    !is_rewritten(package.name.registry_name@, package.lock.version@, registry.rewrites@) && !(
    package_license(package, registry) matches Ok(PackageLicenseView::Unlicensed(_)))
}

/// The packages that `packages` refer to.
pub open spec fn referred(packages: Seq<&Package>) -> Seq<Package> {
    packages.map_values(|p: &Package| *p)
}

/// The packages of `registry`, in the order of discovery.
pub open spec fn packages_of(registry: PackageRegistry) -> Seq<Package> {
    registry.packages@.map_values(|e: (PackageRef, Package)| e.1)
}

/// Whether `packages` stand in the order of their path names.
pub open spec fn by_path_name(packages: Seq<Package>) -> bool {
    forall|i: int, j: int|
        0 <= i < j < packages.len() ==> !seq_lt(
            (#[trigger] packages[j]).name.path_name@,
            (#[trigger] packages[i]).name.path_name@,
        )
}

/// Those of `packages` that are included, in the order of `packages`.
pub open spec fn included(packages: Seq<Package>, registry: PackageRegistry) -> Seq<Package>
    decreases packages.len(),
{
    if packages.len() == 0 {
        Seq::empty()
    } else if is_included(packages.last(), registry) {
        included(packages.drop_last(), registry).push(packages.last())
    } else {
        included(packages.drop_last(), registry)
    }
}

/// `slice::sort_by_key` of std, with the path name as key: the packages are
/// put in the order of their path names, and none is added or lost. Strings
/// are ordered by their code points, position by position.
#[verifier::external_body]
fn sort_by_path_name<'a>(packages: &mut Vec<&'a Package>)
    ensures
        referred(final(packages)@).to_multiset() == referred(old(packages)@).to_multiset(),
        by_path_name(referred(final(packages)@)),
{
    packages.sort_by_key(|k| k.name.path_name.to_owned());
}

/// Every included package is one of the packages, and they follow each
/// other as the packages do.
pub proof fn lemma_included_order(packages: Seq<Package>, registry: PackageRegistry)
    requires
        by_path_name(packages),
    ensures
        by_path_name(included(packages, registry)),
        forall|k: int|
            0 <= k < included(packages, registry).len() ==> packages.contains(
                #[trigger] included(packages, registry)[k],
            ),
    decreases packages.len(),
{
    if packages.len() > 0 {
        let front = packages.drop_last();
        let last = packages.last();
        assert forall|i: int, j: int| 0 <= i < j < front.len() implies !seq_lt(
            (#[trigger] front[j]).name.path_name@,
            (#[trigger] front[i]).name.path_name@,
        ) by {
            assert(front[i] == packages[i] && front[j] == packages[j]);
        }
        lemma_included_order(front, registry);
        let kept = included(front, registry);
        let all = included(packages, registry);
        assert forall|k: int| 0 <= k < all.len() implies packages.contains(#[trigger] all[k]) by {
            if k < kept.len() {
                assert(front.contains(kept[k]));
                let m = choose|m: int| 0 <= m < front.len() && front[m] == kept[k];
                assert(packages[m] == kept[k]);
            } else {
                assert(packages[packages.len() - 1] == last);
            }
        }
        if is_included(last, registry) {
            assert forall|i: int, j: int| 0 <= i < j < all.len() implies !seq_lt(
                (#[trigger] all[j]).name.path_name@,
                (#[trigger] all[i]).name.path_name@,
            ) by {
                if j < kept.len() {
                    assert(all[i] == kept[i] && all[j] == kept[j]);
                } else {
                    assert(front.contains(kept[i]));
                    let m = choose|m: int| 0 <= m < front.len() && front[m] == kept[i];
                    assert(packages[m] == kept[i]);
                    assert(packages[packages.len() - 1] == all[j]);
                }
            }
        }
    }
}

/// Taking one package out of `packages` takes it out of the included ones
/// where it is included, and changes nothing where it is not.
pub proof fn lemma_included_without(packages: Seq<Package>, registry: PackageRegistry, j: int)
    requires
        0 <= j < packages.len(),
    ensures
        included(packages, registry).to_multiset() == if is_included(packages[j], registry) {
            included(packages.remove(j), registry).to_multiset().insert(packages[j])
        } else {
            included(packages.remove(j), registry).to_multiset()
        },
    decreases packages.len(),
{
    let last = packages.last();
    let front = packages.drop_last();
    if j == packages.len() - 1 {
        assert(packages.remove(j) == front);
        if is_included(last, registry) {
            to_multiset_build(included(front, registry), last);
        }
    } else {
        let rest = packages.remove(j);
        assert(rest.drop_last() == front.remove(j));
        assert(rest.last() == last);
        assert(front[j] == packages[j]);
        lemma_included_without(front, registry, j);
        let a = included(front, registry);
        let b = included(front.remove(j), registry);
        if is_included(last, registry) {
            to_multiset_build(a, last);
            to_multiset_build(b, last);
            if is_included(packages[j], registry) {
                assert(b.to_multiset().insert(packages[j]).insert(last) =~= b.to_multiset().insert(
                    last,
                ).insert(packages[j]));
            }
        }
    }
}

/// The included packages, taken as a multiset, are the same for every order
/// of the packages.
pub proof fn lemma_included_ignores_order(a: Seq<Package>, b: Seq<Package>, registry: PackageRegistry)
    requires
        a.to_multiset() == b.to_multiset(),
    ensures
        included(a, registry).to_multiset() == included(b, registry).to_multiset(),
    decreases a.len(),
{
    a.to_multiset_ensures();
    b.to_multiset_ensures();
    if a.len() == 0 {
        assert(b.len() == 0);
        assert(a =~= b);
    } else {
        let x = a.last();
        let front = a.drop_last();
        assert(a == front.push(x));
        to_multiset_build(front, x);
        assert(a.contains(x));
        assert(b.to_multiset().count(x) > 0);
        assert(b.contains(x));
        let j = choose|j: int| 0 <= j < b.len() && b[j] == x;
        to_multiset_remove(b, j);
        assert(front.to_multiset() =~= b.remove(j).to_multiset());
        lemma_included_ignores_order(front, b.remove(j), registry);
        lemma_included_without(b, registry, j);
        if is_included(x, registry) {
            to_multiset_build(included(front, registry), x);
        }
    }
}

/// The packages of a registry, as the overview lists them.
#[derive(Debug)]
pub struct ReadmeContent<'a> {
    /// The packages that are emitted, in the order of their path names.
    pub available_packages: Vec<&'a Package>,
    pub blocked_packages: Vec<&'a Package>,
    pub blocking_packages: Vec<&'a Package>,
    pub unlicensed_packages: Vec<&'a Package>,
}

impl<'a> ReadmeContent<'a> {
    /// The overview of `registry`: the included packages, in the order of
    /// their path names. The other lists stay empty.
    pub fn new(registry: &'a PackageRegistry) -> (r: Self)
        ensures
            by_path_name(referred(r.available_packages@)),
            referred(r.available_packages@).to_multiset() == included(
                packages_of(*registry),
                *registry,
            ).to_multiset(),
            r.blocked_packages@.len() == 0,
            r.blocking_packages@.len() == 0,
            r.unlicensed_packages@.len() == 0,
    {
        let mut packages: Vec<&'a Package> = Vec::new();
        let mut i: usize = 0;
        assert(referred(packages@) =~= packages_of(*registry).take(0));
        while i < registry.packages.len()
            invariant
                i <= registry.packages.len(),
                referred(packages@) == packages_of(*registry).take(i as int),
            decreases registry.packages.len() - i,
        {
            let ghost before = referred(packages@);
            packages.push(&registry.packages[i].1);
            assert(referred(packages@) =~= before.push(registry.packages@[i as int].1));
            assert(packages_of(*registry)[i as int] == registry.packages@[i as int].1);
            i = i + 1;
            assert(packages_of(*registry).take(i as int) =~= packages_of(*registry).take(
                i - 1,
            ).push(packages_of(*registry)[i - 1]));
        }
        assert(packages_of(*registry).take(registry.packages.len() as int) == packages_of(
            *registry,
        ));
        sort_by_path_name(&mut packages);
        let ghost sorted = referred(packages@);
        let mut available_packages: Vec<&'a Package> = Vec::new();
        let mut n: usize = 0;
        assert(referred(available_packages@) =~= included(sorted.take(0), *registry));
        while n < packages.len()
            invariant
                n <= packages.len(),
                sorted == referred(packages@),
                referred(available_packages@) == included(sorted.take(n as int), *registry),
            decreases packages.len() - n,
        {
            let package = packages[n];
            proof {
                assert(sorted.take(n + 1).drop_last() == sorted.take(n as int));
                assert(sorted.take(n + 1).last() == *package);
            }
            match package.include_in_extractor_emit(registry) {
                IncludeInEmit::Included => {
                    let ghost before = referred(available_packages@);
                    available_packages.push(package);
                    assert(referred(available_packages@) =~= before.push(*package));
                },
                IncludeInEmit::NotIncluded(_) => {},
            }
            n = n + 1;
        }
        proof {
            assert(sorted.take(packages.len() as int) == sorted);
            lemma_included_order(sorted, *registry);
            lemma_included_ignores_order(sorted, packages_of(*registry), *registry);
        }
        Self {
            available_packages,
            blocked_packages: Vec::new(),
            blocking_packages: Vec::new(),
            unlicensed_packages: Vec::new(),
        }
    }
}

/// The paths that the first `n` entries of `map` hold for scripts that are
/// licensed, where `licensed` is set, or unlicensed, where it is not.
pub open spec fn scripts_of(map: Seq<VerdictFiles>, licensed: bool, n: int) -> Seq<Seq<char>>
    decreases n,
{
    if n <= 0 {
        Seq::empty()
    } else if (map[n - 1].0 is Licensed) == licensed {
        scripts_of(map, licensed, n - 1) + map[n - 1].1
    } else {
        scripts_of(map, licensed, n - 1)
    }
}

/// The list of the first `n` blocking dependencies: for each a line with its
/// name and its version.
pub open spec fn blocking_list(deps: Seq<Blocking>, n: int) -> Seq<char>
    decreases n,
{
    if n <= 0 {
        Seq::empty()
    } else {
        blocking_list(deps, n - 1) + "- `"@ + deps[n - 1].0 + "` (`"@ + deps[n - 1].1 + "`)\n"@
    }
}

/// One package, as its page describes it.
#[derive(Debug)]
pub struct DebugContent<'a> {
    pub package: &'a Package,
    /// The paths of the scripts that carry a license.
    pub licensed_scripts: Vec<String>,
    /// The paths of the scripts that carry none.
    pub unlicensed_scripts: Vec<String>,
    /// Whether unlicensed dependencies keep the package from being licensed.
    pub is_blocked: bool,
    /// The list of those dependencies.
    pub blocking_tree: String,
}

/// Whether `content` describes `package`, whose license state is `license`.
pub open spec fn describes(content: DebugContent<'_>, package: Package, license: PackageLicenseView) -> bool {
    let map = package.licenses@;
    &&& *content.package == package
    &&& strings_of(content.licensed_scripts@) == scripts_of(map, true, map.len() as int)
    &&& strings_of(content.unlicensed_scripts@) == scripts_of(map, false, map.len() as int)
    &&& match license {
        PackageLicenseView::Unlicensed(ReasonView::Dependencies(deps)) => content.is_blocked
            && content.blocking_tree@ == blocking_list(deps, deps.len() as int),
        _ => !content.is_blocked && content.blocking_tree@.len() == 0,
    }
}

/// Appends the strings of `paths` to `out`.
fn append_paths(out: &mut Vec<String>, paths: &Vec<String>)
    ensures
        strings_of(final(out)@) == strings_of(old(out)@) + strings_of(paths@),
{
    let mut i: usize = 0;
    assert(strings_of(out@) + strings_of(paths@).take(0) == strings_of(out@));
    while i < paths.len()
        invariant
            i <= paths.len(),
            strings_of(out@) == strings_of(old(out)@) + strings_of(paths@).take(i as int),
        decreases paths.len() - i,
    {
        let ghost before = strings_of(out@);
        out.push(paths[i].clone());
        assert(strings_of(out@) == before.push(paths@[i as int]@));
        i = i + 1;
        assert(strings_of(paths@).take(i as int) == strings_of(paths@).take(i - 1).push(
            strings_of(paths@)[i - 1],
        ));
    }
    assert(strings_of(paths@).take(paths.len() as int) == strings_of(paths@));
}

impl<'a> DebugContent<'a> {
    /// What the page of the package found under `package_name` holds. There
    /// is no page for a name that the registry does not know, nor where a
    /// dependency cannot be resolved.
    pub fn new(registry: &'a PackageRegistry, package_name: &str) -> (r: Result<Self, RegistryError>)
        ensures
            ({
                let i = registry.position_of(QueryView::PathName(package_name@));
                if 0 <= i < registry.packages@.len() {
                    match package_license(registry.packages@[i].1, *registry) {
                        Ok(license) => r matches Ok(content) && describes(
                            content,
                            registry.packages@[i].1,
                            license,
                        ),
                        Err(e) => r matches Err(given) && given@ == e,
                    }
                } else {
                    r matches Err(given) && given@ == (RegistryErrorView::UnknownPackage {
                        name: package_name@,
                    })
                }
            }),
    {
        let i = registry.position(PackageQuery::PathName(package_name));
        if i >= registry.packages.len() {
            return Err(RegistryError::UnknownPackage { name: package_name.to_owned() });
        }
        let package = &registry.packages[i].1;
        let ghost map = package.licenses@;
        let mut licensed_scripts: Vec<String> = Vec::new();
        let mut unlicensed_scripts: Vec<String> = Vec::new();
        let mut n: usize = 0;
        assert(strings_of(licensed_scripts@) =~= Seq::<Seq<char>>::empty());
        assert(strings_of(unlicensed_scripts@) =~= Seq::<Seq<char>>::empty());
        while n < package.licenses.entries.len()
            invariant
                n <= package.licenses.entries.len(),
                map == package.licenses@,
                strings_of(licensed_scripts@) == scripts_of(map, true, n as int),
                strings_of(unlicensed_scripts@) == scripts_of(map, false, n as int),
            decreases package.licenses.entries.len() - n,
        {
            let entry = &package.licenses.entries[n];
            assert(map[n as int] == (entry.0@, strings_of(entry.1@)));
            match &entry.0 {
                ScriptLicense::Unlicensed => {
                    append_paths(&mut unlicensed_scripts, &entry.1);
                },
                ScriptLicense::Licensed(_) => {
                    append_paths(&mut licensed_scripts, &entry.1);
                },
            }
            n = n + 1;
        }
        let mut is_blocked = false;
        let mut blocking_tree = String::new();
        let license = match package.is_package_licensed(registry) {
            Ok(license) => license,
            Err(e) => {
                return Err(e);
            },
        };
        match &license {
            PackageLicense::Unlicensed(UnlicensedPackageReason::UnlicensedDependencies(deps)) => {
                is_blocked = true;
                let ghost views = entries_view(deps@, deps@.len());
                proof {
                    lemma_entries_view(deps@, deps@.len());
                }
                let mut k: usize = 0;
                while k < deps.len()
                    invariant
                        k <= deps.len(),
                        views == entries_view(deps@, deps@.len()),
                        views.len() == deps@.len(),
                        forall|j: int|
                            0 <= j < deps@.len() ==> (#[trigger] views[j]).0 == deps@[j].0@
                                && views[j].1 == deps@[j].1@,
                        blocking_tree@ == blocking_list(views, k as int),
                    decreases deps.len() - k,
                {
                    let ghost before = blocking_tree@;
                    assert(views[k as int].0 == deps@[k as int].0@);
                    blocking_tree.append("- `");
                    blocking_tree.append(deps[k].0.as_str());
                    blocking_tree.append("` (`");
                    blocking_tree.append(deps[k].1.as_str());
                    blocking_tree.append("`)\n");
                    k = k + 1;
                }
            },
            _ => {},
        }
        Ok(Self { package, licensed_scripts, unlicensed_scripts, is_blocked, blocking_tree })
    }
}

} // verus!
