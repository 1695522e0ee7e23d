//! The registry: every discovered package under a numeric reference, and the
//! graph of their dependencies.

use crate::graph::{
    add_edge, add_node, edge_count, graph_edges, graph_nodes, new_graph, no_edges, PackageGraph,
};
use crate::package::license_extractor::{
    blocking_files, ClassifierConfig, PackageLicense, PackageLicenseView, ScriptFile,
};
use crate::package::package_lock::{
    dependencies_view, version_text, LockDependency, LockDependencyView, PackageLock,
};
use crate::package::package_name::PackageNameView;
use crate::package::package_rewrite::PackageRewrite;
use crate::package::{
    declared, is_new_package, new_package, package_license, Package, PackageError,
    PackageErrorView,
};
use crate::scan::{first_index, lemma_first_index, lemma_first_index_is};
use crate::text::{chars_of, starts_with, str_eq, strings_of};
use vstd::prelude::*;
use vstd::seq_lib::to_multiset_build;

verus! {

/// Numeric reference to one package held by a registry.
#[derive(Debug, Clone, Copy, PartialEq, Eq, Hash, Structural)]
pub struct PackageRef(pub u32);

/// What a package is looked up by.
#[derive(Debug, Clone, Copy, PartialEq, Eq)]
pub enum PackageQuery<'a> {
    /// The name on the path, exactly.
    PathName(&'a str),
    /// The registry name, exactly.
    RegistryName(&'a str),
    /// The registry name and the package's own version, both exactly.
    RegistryNameAndVersion(&'a str, &'a str),
    /// A prefix of the commit hash.
    CommitHash(&'a str),
}

/// What a `PackageQuery` holds.
pub enum QueryView {
    PathName(Seq<char>),
    RegistryName(Seq<char>),
    RegistryNameAndVersion(Seq<char>, Seq<char>),
    CommitHash(Seq<char>),
}

impl View for PackageQuery<'_> {
    type V = QueryView;

    open spec fn view(&self) -> QueryView {
        match self {
            PackageQuery::PathName(name) => QueryView::PathName(name@),
            PackageQuery::RegistryName(name) => QueryView::RegistryName(name@),
            PackageQuery::RegistryNameAndVersion(name, version) => QueryView::RegistryNameAndVersion(
                name@,
                version@,
            ),
            PackageQuery::CommitHash(hash) => QueryView::CommitHash(hash@),
        }
    }
}

/// Whether `package` is what `query` asks for.
pub open spec fn answers(package: Package, query: QueryView) -> bool {
    match query {
        QueryView::PathName(name) => package.name.path_name@ == name,
        QueryView::RegistryName(name) => package.name.registry_name@ == name,
        QueryView::RegistryNameAndVersion(name, version) => package.name.registry_name@ == name
            && package.lock.version@ == version,
        QueryView::CommitHash(hash) => hash.is_prefix_of(package.lock.commit@),
    }
}

/// The query that looks for the package that `dep` pins: by its registry
/// name and the text of its version.
pub open spec fn query_of(dep: LockDependencyView) -> QueryView {
    QueryView::RegistryNameAndVersion(dep.registry_name, version_text(dep.version))
}

/// Why a question to the registry has no answer.
#[derive(Debug, Clone, PartialEq, Eq)]
pub enum RegistryError {
    /// No package of the registry has the registry name `name`.
    UnknownPackage { name: String },
    /// The package found under `dependant` declares the dependency `name` at
    /// `version`, and the registry holds no package for it.
    UnresolvedDependency { dependant: String, name: String, version: String },
    /// The graph cannot number the edges that the registry declares.
    GraphFull,
}

/// What a `RegistryError` holds.
pub enum RegistryErrorView {
    UnknownPackage { name: Seq<char> },
    UnresolvedDependency { dependant: Seq<char>, name: Seq<char>, version: Seq<char> },
    GraphFull,
}

impl View for RegistryError {
    type V = RegistryErrorView;

    open spec fn view(&self) -> RegistryErrorView {
        match self {
            RegistryError::UnknownPackage { name } => RegistryErrorView::UnknownPackage {
                name: name@,
            },
            RegistryError::UnresolvedDependency {
                dependant,
                name,
                version,
            } => RegistryErrorView::UnresolvedDependency {
                dependant: dependant@,
                name: name@,
                version: version@,
            },
            RegistryError::GraphFull => RegistryErrorView::GraphFull,
        }
    }
}

/// One directory of an index, as read from disk: where it is, the name of
/// its last path component, its lock where it has one, and the scripts of
/// its source directory.
#[derive(Debug)]
pub struct PackageCandidate {
    pub package_path: String,
    pub path_name: String,
    pub lock: Option<PackageLock>,
    pub scripts: Vec<ScriptFile>,
}

/// The package that could not be made during discovery, and why.
#[derive(Debug, Clone, PartialEq, Eq)]
pub struct DiscoveryError {
    pub package_path: String,
    pub cause: PackageError,
}

/// Whether no package can be made from `candidate` although it has a lock.
pub open spec fn fails(candidate: PackageCandidate, rules: Seq<PackageRewrite>) -> bool {
    candidate.lock matches Some(lock) && new_package(candidate.path_name@, lock, rules) is Err
}

/// The number of candidates with a lock among the first `n` of `candidates`.
pub open spec fn locked(candidates: Seq<PackageCandidate>, n: int) -> int
    decreases n,
{
    if n <= 0 {
        0
    } else if candidates[n - 1].lock is Some {
        locked(candidates, n - 1) + 1
    } else {
        locked(candidates, n - 1)
    }
}

/// Whether `package` is a package made from `candidate`.
pub open spec fn stems_from(
    package: Package,
    candidate: PackageCandidate,
    rules: Seq<PackageRewrite>,
    config: ClassifierConfig,
) -> bool {
    &&& candidate.lock matches Some(lock)
    &&& is_new_package(
        package,
        candidate.package_path,
        candidate.path_name@,
        lock,
        candidate.scripts@,
        rules,
        config,
    )
}

/// The position in `packages` of the first package that `query` asks for,
/// or their number where there is none.
pub open spec fn position_in(packages: Seq<(PackageRef, Package)>, query: QueryView) -> int {
    first_index(packages.len() as int, |i: int| answers(packages[i].1, query))
}

/// `packages` after `package` was taken in: in the place of the package
/// with the same path name, whose reference it takes over, or, where there
/// is none, at the end under the next reference.
pub open spec fn with_package(packages: Seq<(PackageRef, Package)>, package: Package) -> Seq<
    (PackageRef, Package),
> {
    let i = position_in(packages, QueryView::PathName(package.name.path_name@));
    if 0 <= i < packages.len() {
        packages.update(i, (packages[i].0, package))
    } else {
        packages.push((PackageRef((packages.len() + 1) as u32), package))
    }
}

/// `packages` after the first `n` of `made` were taken in, in order.
pub open spec fn taken_in(packages: Seq<(PackageRef, Package)>, made: Seq<Package>, n: int) -> Seq<
    (PackageRef, Package),
>
    decreases n,
{
    if n <= 0 {
        packages
    } else {
        with_package(taken_in(packages, made, n - 1), made[n - 1])
    }
}

/// What is taken in first does not depend on what is made later.
pub proof fn lemma_taken_in_prefix(
    packages: Seq<(PackageRef, Package)>,
    made: Seq<Package>,
    more: Package,
    n: int,
)
    requires
        n <= made.len(),
    ensures
        taken_in(packages, made.push(more), n) == taken_in(packages, made, n),
    decreases n,
{
    if n > 0 {
        lemma_taken_in_prefix(packages, made, more, n - 1);
        assert(made.push(more)[n - 1] == made[n - 1]);
    }
}

/// Whether `made` are the packages made from the first `stop` of
/// `candidates`, one for each candidate with a lock, in order.
pub open spec fn made_from(
    made: Seq<Package>,
    candidates: Seq<PackageCandidate>,
    stop: int,
    rules: Seq<PackageRewrite>,
    config: ClassifierConfig,
) -> bool {
    &&& made.len() == locked(candidates, stop)
    &&& forall|i: int|
        0 <= i < stop && (#[trigger] candidates[i]).lock is Some ==> stems_from(
            made[locked(candidates, i)],
            candidates[i],
            rules,
            config,
        )
}

/// The positions of the packages that the first `n` of `deps`, dependencies
/// of `package`, resolve to, in order; or the first dependency that resolves
/// to no package.
pub open spec fn resolved_positions(
    registry: PackageRegistry,
    package: Package,
    deps: Seq<LockDependencyView>,
    n: nat,
) -> Result<Seq<usize>, RegistryErrorView>
    decreases n,
{
    if n == 0 {
        Ok(Seq::empty())
    } else {
        match resolved_positions(registry, package, deps, (n - 1) as nat) {
            Err(e) => Err(e),
            Ok(before) => {
                let dep = deps[n - 1];
                let q = registry.resolved_position(dep);
                if 0 <= q < registry.packages@.len() {
                    Ok(before.push(q as usize))
                } else {
                    Err(
                        RegistryErrorView::UnresolvedDependency {
                            dependant: package.name.path_name@,
                            name: dep.registry_name,
                            version: version_text(dep.version),
                        },
                    )
                }
            },
        }
    }
}

/// The positions of the packages that the dependencies of `package` resolve
/// to. A dependency list that cannot be read counts as empty.
pub open spec fn dependency_positions(registry: PackageRegistry, package: Package) -> Result<
    Seq<usize>,
    RegistryErrorView,
> {
    let deps = declared(package, registry.rewrites@);
    resolved_positions(registry, package, deps, deps.len())
}

/// Once a dependency does not resolve, further dependencies change nothing.
pub proof fn lemma_positions_error_stays(
    registry: PackageRegistry,
    package: Package,
    deps: Seq<LockDependencyView>,
    k: nat,
    m: nat,
)
    requires
        k <= m,
        resolved_positions(registry, package, deps, k) is Err,
    ensures
        resolved_positions(registry, package, deps, m) == resolved_positions(
            registry,
            package,
            deps,
            k,
        ),
    decreases m,
{
    if k < m {
        lemma_positions_error_stays(registry, package, deps, k, (m - 1) as nat);
    }
}

/// The positions that dependencies resolve to are positions of packages.
pub proof fn lemma_positions_in_range(
    registry: PackageRegistry,
    package: Package,
    deps: Seq<LockDependencyView>,
    n: nat,
)
    ensures
        resolved_positions(registry, package, deps, n) matches Ok(found) ==> found.len() == n
            && forall|k: int| 0 <= k < found.len() ==> (#[trigger] found[k]) < registry.packages@.len(),
    decreases n,
{
    if n > 0 {
        lemma_positions_in_range(registry, package, deps, (n - 1) as nat);
    }
}

/// The view of a result of `resolve_dependencies`.
pub open spec fn positions_view(r: Result<Vec<usize>, RegistryError>) -> Result<
    Seq<usize>,
    RegistryErrorView,
> {
    match r {
        Ok(found) => Ok(found@),
        Err(e) => Err(e@),
    }
}

/// The view of the edges held by `edges`.
pub open spec fn edges_view(edges: Seq<(usize, usize)>) -> Seq<(int, int)> {
    edges.map_values(|e: (usize, usize)| (e.0 as int, e.1 as int))
}

/// Every discovered package, in the order of discovery, and the graph of
/// their dependencies.
pub struct PackageRegistry {
    /// The packages with their references, in the order of discovery.
    pub packages: Vec<(PackageRef, Package)>,
    /// The number of packages discovered, which is the last reference given.
    pub package_count: u32,
    /// One node per package, weighted with its reference; one edge per
    /// resolved dependency.
    pub package_graph: PackageGraph,
    /// The node of each package, in the order of discovery.
    pub node_indexes: Vec<(PackageRef, usize)>,
    /// The rewrite rules under which dependencies are read.
    pub rewrites: Vec<PackageRewrite>,
}

impl PackageRegistry {
    /// Whether the registry is consistent: references count up from one in
    /// the order of discovery, no two packages have the same path name, and
    /// the graph holds exactly one node per package, weighted with the
    /// package's reference.
    pub open spec fn wf(&self) -> bool {
        &&& self.packages@.len() == self.package_count
        &&& forall|i: int, j: int|
            0 <= i < j < self.packages@.len() ==> (#[trigger] self.packages@[i]).1.name.path_name@
                != (#[trigger] self.packages@[j]).1.name.path_name@
        &&& self.node_indexes@.len() == self.package_count
        &&& graph_nodes(self.package_graph).dom().finite()
        &&& graph_nodes(self.package_graph).dom().len() == self.package_count
        &&& forall|i: int|
            0 <= i < self.package_count ==> (#[trigger] self.packages@[i]).0 == PackageRef(
                (i + 1) as u32,
            )
        &&& forall|i: int|
            0 <= i < self.package_count ==> {
                &&& (#[trigger] self.node_indexes@[i]).0 == PackageRef((i + 1) as u32)
                &&& graph_nodes(self.package_graph).dom().contains(self.node_indexes@[i].1 as int)
                &&& graph_nodes(self.package_graph)[self.node_indexes@[i].1 as int] == i + 1
            }
    }

    /// The position of the first package that `query` asks for, or the number
    /// of packages where there is none.
    pub open spec fn position_of(&self, query: QueryView) -> int {
        position_in(self.packages@, query)
    }

    /// Whether `r` is the first package that `query` asks for, with its
    /// reference; `None` where there is no such package.
    pub open spec fn found(&self, r: Option<(&PackageRef, &Package)>, query: QueryView) -> bool {
        let i = self.position_of(query);
        match r {
            Some((package_ref, package)) => {
                &&& 0 <= i < self.packages@.len()
                &&& *package_ref == self.packages@[i].0
                &&& *package == self.packages@[i].1
            },
            None => i == self.packages@.len(),
        }
    }

    /// The position of the package that `dep` resolves to: the first package
    /// with the dependency's registry name and version, else the first
    /// package with its registry name, whatever the version; the number of
    /// packages where there is neither.
    pub open spec fn resolved_position(&self, dep: LockDependencyView) -> int {
        let exact = self.position_of(query_of(dep));
        if 0 <= exact < self.packages@.len() {
            exact
        } else {
            self.position_of(QueryView::RegistryName(dep.registry_name))
        }
    }

    /// Whether the package `name` is licensed, and the paths of the scripts
    /// that keep it from being licensed: every unlicensed script found in the
    /// package or, through dependencies that are not rewritten, below it.
    pub open spec fn licensed(&self, name: Seq<char>) -> Result<
        (bool, Seq<Seq<char>>),
        RegistryErrorView,
    > {
        let i = self.position_of(QueryView::RegistryName(name));
        if !(0 <= i < self.packages@.len()) {
            Err(RegistryErrorView::UnknownPackage { name })
        } else {
            match package_license(self.packages@[i].1, *self) {
                Err(e) => Err(e),
                Ok(PackageLicenseView::Licensed(_)) => Ok((true, Seq::empty())),
                Ok(PackageLicenseView::Unlicensed(reason)) => Ok((false, blocking_files(reason))),
            }
        }
    }

    /// The node of the package at position `i`.
    pub open spec fn node_of(&self, i: int) -> int {
        self.node_indexes@[i].1 as int
    }

    /// The edges that the package at position `p` asks for: one from its node
    /// to the node of each of `positions`.
    pub open spec fn edges_from(&self, p: int, positions: Seq<usize>) -> Seq<(int, int)> {
        positions.map_values(|q: usize| (self.node_of(p), self.node_of(q as int)))
    }

    /// The edges that the first `n` packages ask for, package by package, one
    /// for each dependency; or the first dependency that resolves to no
    /// package. A dependency list that cannot be read asks for nothing.
    pub open spec fn declared_edges(&self, n: nat) -> Result<Seq<(int, int)>, RegistryErrorView>
        decreases n,
    {
        if n == 0 {
            Ok(Seq::empty())
        } else {
            match self.declared_edges((n - 1) as nat) {
                Err(e) => Err(e),
                Ok(before) => match dependency_positions(*self, self.packages@[n - 1].1) {
                    Err(e) => Err(e),
                    Ok(positions) => Ok(before + self.edges_from(n - 1, positions)),
                },
            }
        }
    }

    /// An empty registry that reads dependencies under `rewrites`.
    pub fn new(rewrites: Vec<PackageRewrite>) -> (r: Self)
        ensures
            r.wf(),
            r.package_count == 0,
            r.packages@.len() == 0,
            r.rewrites == rewrites,
            graph_edges(r.package_graph) == no_edges(),
    {
        Self {
            packages: Vec::new(),
            package_count: 0,
            package_graph: new_graph(),
            node_indexes: Vec::new(),
            rewrites,
        }
    }

    /// The position of the first package that `query` asks for.
    pub fn position(&self, query: PackageQuery<'_>) -> (i: usize)
        ensures
            i == self.position_of(query@),
            i <= self.packages@.len(),
    {
        let ghost p = |i: int| answers(self.packages@[i].1, query@);
        let mut i: usize = 0;
        while i < self.packages.len()
            invariant
                i <= self.packages.len(),
                p == (|i: int| answers(self.packages@[i].1, query@)),
                forall|k: int| 0 <= k < i ==> !(#[trigger] p(k)),
            decreases self.packages.len() - i,
        {
            let package = &self.packages[i].1;
            let hit = match query {
                PackageQuery::PathName(name) => str_eq(package.name.path_name.as_str(), name),
                PackageQuery::RegistryName(name) => str_eq(
                    package.name.registry_name.as_str(),
                    name,
                ),
                PackageQuery::RegistryNameAndVersion(name, version) => str_eq(
                    package.name.registry_name.as_str(),
                    name,
                ) && str_eq(package.lock.version.as_str(), version),
                PackageQuery::CommitHash(hash) => starts_with(
                    &chars_of(package.lock.commit.as_str()),
                    &chars_of(hash),
                ),
            };
            if hit {
                proof {
                    assert(p(i as int));
                    lemma_first_index_is(self.packages@.len() as int, p, i as int);
                }
                return i;
            }
            assert(!p(i as int));
            i = i + 1;
        }
        proof {
            lemma_first_index_is(self.packages@.len() as int, p, i as int);
        }
        i
    }

    /// The first package that `query` asks for, with its reference.
    pub fn find_by(&self, query: PackageQuery<'_>) -> (r: Option<(&PackageRef, &Package)>)
        ensures
            self.found(r, query@),
    {
        let i = self.position(query);
        if i < self.packages.len() {
            let entry = &self.packages[i];
            Some((&entry.0, &entry.1))
        } else {
            None
        }
    }

    /// Finds a package by the name it has on the path.
    pub fn find_by_path_name(&self, path_name: &str) -> (r: Option<(&PackageRef, &Package)>)
        ensures
            self.found(r, QueryView::PathName(path_name@)),
    {
        self.find_by(PackageQuery::PathName(path_name))
    }

    /// Finds a package by its registry name.
    pub fn find_by_registry_name(&self, registry_name: &str) -> (r: Option<(&PackageRef, &Package)>)
        ensures
            self.found(r, QueryView::RegistryName(registry_name@)),
    {
        self.find_by(PackageQuery::RegistryName(registry_name))
    }

    /// Finds a package by its registry name and its own version, compared as
    /// text.
    pub fn find_by_registry_name_and_version(&self, registry_name: &str, version: &str) -> (r: Option<
        (&PackageRef, &Package),
    >)
        ensures
            self.found(r, QueryView::RegistryNameAndVersion(registry_name@, version@)),
    {
        self.find_by(PackageQuery::RegistryNameAndVersion(registry_name, version))
    }

    /// Finds a package by a prefix of its commit hash.
    pub fn find_by_commit_hash(&self, commit_hash: &str) -> (r: Option<(&PackageRef, &Package)>)
        ensures
            self.found(r, QueryView::CommitHash(commit_hash@)),
    {
        self.find_by(PackageQuery::CommitHash(commit_hash))
    }

    /// The position of the package that `dependency` resolves to, or the
    /// number of packages where it resolves to none.
    pub fn resolve_position(&self, dependency: &LockDependency) -> (i: usize)
        ensures
            i == self.resolved_position(dependency@),
            i <= self.packages@.len(),
    {
        let version = dependency.version.to_string();
        let exact = self.position(
            PackageQuery::RegistryNameAndVersion(
                dependency.registry_name.as_str(),
                version.as_str(),
            ),
        );
        if exact < self.packages.len() {
            exact
        } else {
            self.position(PackageQuery::RegistryName(dependency.registry_name.as_str()))
        }
    }

    /// Resolves a dependency to a package of the registry: the package of
    /// its registry name and version, else the first package of its registry
    /// name. The second step lets a dependency that is pinned by a commit, or
    /// by a version that the registry does not hold, find its package.
    pub fn resolve_lock_dependency_to_package(&self, dependency: &LockDependency) -> (r: Option<
        (&PackageRef, &Package),
    >)
        ensures
            match r {
                Some((package_ref, package)) => {
                    let i = self.resolved_position(dependency@);
                    &&& 0 <= i < self.packages@.len()
                    &&& *package_ref == self.packages@[i].0
                    &&& *package == self.packages@[i].1
                },
                None => self.resolved_position(dependency@) == self.packages@.len(),
            },
    {
        let i = self.resolve_position(dependency);
        if i < self.packages.len() {
            let entry = &self.packages[i];
            Some((&entry.0, &entry.1))
        } else {
            None
        }
    }

    /// Takes `package` into the registry. A package with a path name that
    /// the registry does not hold yet gets the next reference and a node in
    /// the graph. One with a path name that the registry holds takes the
    /// place, the reference and the node of the package it repeats.
    pub fn add_package(&mut self, package: Package) -> (r: PackageRef)
        requires
            old(self).wf(),
            old(self).package_count < u32::MAX,
        ensures
            final(self).wf(),
            final(self).packages@ == with_package(old(self).packages@, package),
            0 <= position_in(final(self).packages@, QueryView::PathName(package.name.path_name@))
                < final(self).packages@.len(),
            r == final(self).packages@[position_in(
                final(self).packages@,
                QueryView::PathName(package.name.path_name@),
            )].0,
            final(self).package_count <= old(self).package_count + 1,
            final(self).rewrites == old(self).rewrites,
            graph_edges(final(self).package_graph) == graph_edges(old(self).package_graph),
    {
        let ghost query = QueryView::PathName(package.name.path_name@);
        let ghost asked = |i: int| answers(with_package(old(self).packages@, package)[i].1, query);
        let i = self.position(PackageQuery::PathName(package.name.path_name.as_str()));
        let ghost held = |k: int| answers(old(self).packages@[k].1, query);
        proof {
            lemma_first_index(self.packages@.len() as int, held);
        }
        if i < self.packages.len() {
            let package_ref = self.packages[i].0;
            self.packages.set(i, (package_ref, package));
            proof {
                assert forall|k: int| 0 <= k < i implies !(#[trigger] asked(k)) by {
                    assert(self.packages@[k] == old(self).packages@[k]);
                    assert(!held(k));
                }
                assert(asked(i as int));
                lemma_first_index_is(self.packages@.len() as int, asked, i as int);
                assert forall|k: int| 0 <= k < self.package_count implies (
                #[trigger] self.packages@[k]).0 == PackageRef((k + 1) as u32) by {
                    assert(self.packages@[k].0 == old(self).packages@[k].0);
                }
                assert(held(i as int));
                assert forall|a: int, b: int| 0 <= a < b < self.packages@.len() implies (
                #[trigger] self.packages@[a]).1.name.path_name@ != (
                #[trigger] self.packages@[b]).1.name.path_name@ by {
                    assert(self.packages@[a].1.name.path_name@ == old(
                        self,
                    ).packages@[a].1.name.path_name@);
                    assert(self.packages@[b].1.name.path_name@ == old(
                        self,
                    ).packages@[b].1.name.path_name@);
                }
            }
            return package_ref;
        }
        self.package_count = self.package_count + 1;
        let package_ref = PackageRef(self.package_count);
        self.packages.push((package_ref, package));
        let index = add_node(&mut self.package_graph, self.package_count);
        self.node_indexes.push((package_ref, index));
        proof {
            let n = self.package_count as int;
            assert forall|k: int| 0 <= k < n - 1 implies !(#[trigger] asked(k)) by {
                assert(self.packages@[k] == old(self).packages@[k]);
                assert(!held(k));
            }
            assert(asked(n - 1));
            lemma_first_index_is(n, asked, n - 1);
            assert forall|i: int| 0 <= i < n implies {
                &&& (#[trigger] self.node_indexes@[i]).0 == PackageRef((i + 1) as u32)
                &&& graph_nodes(self.package_graph).dom().contains(self.node_indexes@[i].1 as int)
                &&& graph_nodes(self.package_graph)[self.node_indexes@[i].1 as int] == i + 1
            } by {
                if i < n - 1 {
                    assert(self.node_indexes@[i] == old(self).node_indexes@[i]);
                    assert(self.node_indexes@[i].1 != index);
                }
            }
            assert forall|i: int| 0 <= i < n implies (#[trigger] self.packages@[i]).0 == PackageRef(
                (i + 1) as u32,
            ) by {
                if i < n - 1 {
                    assert(self.packages@[i] == old(self).packages@[i]);
                }
            }
            assert forall|a: int, b: int| 0 <= a < b < n implies (
            #[trigger] self.packages@[a]).1.name.path_name@ != (
            #[trigger] self.packages@[b]).1.name.path_name@ by {
                assert(self.packages@[a] == old(self).packages@[a]);
                if b < n - 1 {
                    assert(self.packages@[b] == old(self).packages@[b]);
                } else {
                    assert(!held(a));
                }
            }
        }
        package_ref
    }
}

/// The view of a result of `PackageRegistry::is_package_licensed`.
pub open spec fn verdict_view(r: Result<(bool, Vec<String>), RegistryError>) -> Result<
    (bool, Seq<Seq<char>>),
    RegistryErrorView,
> {
    match r {
        Ok((licensed, files)) => Ok((licensed, strings_of(files@))),
        Err(e) => Err(e@),
    }
}

/// The view of a result of `PackageRegistry::resolve_edges`.
pub open spec fn resolved_edges_view(r: Result<Vec<(usize, usize)>, RegistryError>) -> Result<
    Seq<(int, int)>,
    RegistryErrorView,
> {
    match r {
        Ok(edges) => Ok(edges_view(edges@)),
        Err(e) => Err(e@),
    }
}

impl PackageRegistry {
    /// Whether the package of registry name `registry_name` is licensed, and
    /// where it is not, the paths of all the unlicensed scripts that stand in
    /// the way.
    pub fn is_package_licensed(&self, registry_name: &str) -> (r: Result<
        (bool, Vec<String>),
        RegistryError,
    >)
        ensures
            verdict_view(r) == self.licensed(registry_name@),
    {
        let i = self.position(PackageQuery::RegistryName(registry_name));
        if i >= self.packages.len() {
            return Err(RegistryError::UnknownPackage { name: registry_name.to_owned() });
        }
        match self.packages[i].1.is_package_licensed(self) {
            Err(e) => Err(e),
            Ok(PackageLicense::Licensed(_)) => {
                let files: Vec<String> = Vec::new();
                assert(strings_of(files@) == Seq::<Seq<char>>::empty());
                Ok((true, files))
            },
            Ok(PackageLicense::Unlicensed(reason)) => Ok((false, reason.unlicensed_files())),
        }
    }

    /// Takes into the registry a package for each of `candidates` that has a
    /// lock, in order, and stops at the first from which no package can be
    /// made. Candidates without a lock are passed over.
    pub fn discover_packages_at_index(
        &mut self,
        candidates: Vec<PackageCandidate>,
        config: &ClassifierConfig,
    ) -> (r: Result<(), DiscoveryError>)
        requires
            old(self).wf(),
            old(self).package_count + candidates@.len() <= u32::MAX,
        ensures
            final(self).wf(),
            final(self).rewrites == old(self).rewrites,
            graph_edges(final(self).package_graph) == graph_edges(old(self).package_graph),
            ({
                let rules = old(self).rewrites@;
                let stop = first_index(
                    candidates@.len() as int,
                    |i: int| fails(candidates@[i], rules),
                );
                &&& exists|made: Seq<Package>|
                    made_from(made, candidates@, stop, rules, *config) && final(self).packages@
                        == taken_in(old(self).packages@, made, made.len() as int)
                &&& match r {
                    Ok(_) => stop == candidates@.len(),
                    Err(e) => {
                        &&& 0 <= stop < candidates@.len()
                        &&& e.package_path == candidates@[stop].package_path
                        &&& Err::<PackageNameView, PackageErrorView>(e.cause@) == new_package(
                            candidates@[stop].path_name@,
                            candidates@[stop].lock->Some_0,
                            rules,
                        )
                    },
                }
            }),
    {
        let ghost rules = self.rewrites@;
        let ghost failing = |i: int| fails(candidates@[i], rules);
        let ghost mut made: Seq<Package> = Seq::empty();
        let mut rest = candidates;
        let mut done: usize = 0;
        let total = rest.len();
        proof {
            assert(rest@ == candidates@.skip(0));
        }
        while rest.len() > 0
            invariant
                self.wf(),
                self.rewrites == old(self).rewrites,
                rules == old(self).rewrites@,
                graph_edges(self.package_graph) == graph_edges(old(self).package_graph),
                failing == (|i: int| fails(candidates@[i], rules)),
                total == candidates@.len(),
                done <= total,
                rest@ == candidates@.skip(done as int),
                old(self).package_count + candidates@.len() <= u32::MAX,
                self.package_count <= old(self).package_count + done,
                made_from(made, candidates@, done as int, rules, *config),
                self.packages@ == taken_in(old(self).packages@, made, made.len() as int),
                forall|k: int| 0 <= k < done ==> !(#[trigger] failing(k)),
            decreases rest.len(),
        {
            let candidate = rest.remove(0);
            proof {
                assert(candidate == candidates@[done as int]);
                assert(rest@ == candidates@.skip(done + 1));
                lemma_locked_bounds(candidates@, done as int);
            }
            let PackageCandidate { package_path, path_name, lock, scripts } = candidate;
            match lock {
                None => {
                    assert(!failing(done as int));
                },
                Some(lock) => {
                    match Package::new(
                        package_path.clone(),
                        path_name.as_str(),
                        lock,
                        &scripts,
                        &self.rewrites,
                        config,
                    ) {
                        Err(cause) => {
                            proof {
                                assert(failing(done as int));
                                lemma_first_index_is(candidates@.len() as int, failing, done as int);
                            }
                            return Err(DiscoveryError { package_path, cause });
                        },
                        Ok(package) => {
                            assert(!failing(done as int));
                            let ghost before = made;
                            proof {
                                made = made.push(package);
                                lemma_taken_in_prefix(
                                    old(self).packages@,
                                    before,
                                    package,
                                    before.len() as int,
                                );
                                assert forall|i: int|
                                    0 <= i < done + 1 && (#[trigger] candidates@[i]).lock is Some implies stems_from(
                                    made[locked(candidates@, i)],
                                    candidates@[i],
                                    rules,
                                    *config,
                                ) by {
                                    lemma_locked_bounds(candidates@, i);
                                    if i < done {
                                        lemma_locked_strict(candidates@, i, done as int);
                                        assert(made[locked(candidates@, i)] == before[locked(
                                            candidates@,
                                            i,
                                        )]);
                                    }
                                }
                            }
                            self.add_package(package);
                        },
                    }
                },
            }
            done = done + 1;
        }
        proof {
            lemma_first_index_is(candidates@.len() as int, failing, done as int);
        }
        Ok(())
    }

    /// The positions of the packages that the dependencies of `package`
    /// resolve to, in the order of the dependencies.
    pub fn resolve_dependencies(&self, package: &Package) -> (r: Result<Vec<usize>, RegistryError>)
        ensures
            positions_view(r) == dependency_positions(*self, *package),
    {
        let deps = match package.lock.parse_lock_dependencies(&self.rewrites) {
            Ok(deps) => deps,
            Err(_) => Vec::new(),
        };
        let ghost views = declared(*package, self.rewrites@);
        assert(dependencies_view(deps@) =~= views);
        let mut found: Vec<usize> = Vec::new();
        let mut n: usize = 0;
        while n < deps.len()
            invariant
                n <= deps.len(),
                dependencies_view(deps@) == views,
                views == declared(*package, self.rewrites@),
                resolved_positions(*self, *package, views, n as nat) == Ok::<
                    Seq<usize>,
                    RegistryErrorView,
                >(found@),
            decreases deps.len() - n,
        {
            let dep = &deps[n];
            assert(views[n as int] == dep@);
            let q = self.resolve_position(dep);
            if q >= self.packages.len() {
                proof {
                    lemma_positions_error_stays(
                        *self,
                        *package,
                        views,
                        (n + 1) as nat,
                        views.len(),
                    );
                }
                return Err(
                    RegistryError::UnresolvedDependency {
                        dependant: package.name.path_name.clone(),
                        name: dep.registry_name.clone(),
                        version: dep.version.to_string(),
                    },
                );
            }
            found.push(q);
            n = n + 1;
        }
        Ok(found)
    }

    /// The edges that the dependencies of the packages ask for, each as the
    /// nodes of the dependant and of the package that the dependency
    /// resolves to; or the first dependency that resolves to no package.
    pub fn resolve_edges(&self) -> (r: Result<Vec<(usize, usize)>, RegistryError>)
        requires
            self.wf(),
        ensures
            resolved_edges_view(r) == self.declared_edges(self.packages@.len()),
    {
        let mut edges: Vec<(usize, usize)> = Vec::new();
        let mut p: usize = 0;
        assert(edges_view(edges@) =~= Seq::<(int, int)>::empty());
        while p < self.packages.len()
            invariant
                self.wf(),
                p <= self.packages.len(),
                self.declared_edges(p as nat) == Ok::<Seq<(int, int)>, RegistryErrorView>(
                    edges_view(edges@),
                ),
            decreases self.packages.len() - p,
        {
            let package = &self.packages[p].1;
            let positions = match self.resolve_dependencies(package) {
                Ok(positions) => positions,
                Err(e) => {
                    proof {
                        lemma_declared_error_stays(*self, (p + 1) as nat, self.packages@.len());
                    }
                    return Err(e);
                },
            };
            proof {
                let deps = declared(*package, self.rewrites@);
                lemma_positions_in_range(*self, *package, deps, deps.len());
            }
            let ghost held = edges_view(edges@);
            let mut n: usize = 0;
            assert(held + self.edges_from(p as int, positions@.take(0)) =~= held);
            while n < positions.len()
                invariant
                    self.wf(),
                    p < self.packages.len(),
                    n <= positions.len(),
                    forall|k: int|
                        0 <= k < positions@.len() ==> (#[trigger] positions@[k])
                            < self.packages@.len(),
                    edges_view(edges@) == held + self.edges_from(
                        p as int,
                        positions@.take(n as int),
                    ),
                decreases positions.len() - n,
            {
                let q = positions[n];
                let ghost shown = edges_view(edges@);
                edges.push((self.node_indexes[p].1, self.node_indexes[q].1));
                proof {
                    let edge = (self.node_of(p as int), self.node_of(q as int));
                    assert(edges_view(edges@) =~= shown.push(edge));
                    assert(positions@.take(n + 1) =~= positions@.take(n as int).push(q));
                    assert(self.edges_from(p as int, positions@.take(n + 1)) =~= self.edges_from(
                        p as int,
                        positions@.take(n as int),
                    ).push(edge));
                    assert(held + self.edges_from(p as int, positions@.take(n + 1))
                        =~= shown.push(edge));
                }
                n = n + 1;
            }
            assert(positions@.take(positions.len() as int) == positions@);
            p = p + 1;
        }
        Ok(edges)
    }

    /// Adds to the graph one edge for every dependency of every package, from
    /// the package to what the dependency resolves to. Nothing is added
    /// where a dependency resolves to no package, or where the graph cannot
    /// number the edges.
    pub fn construct_graph_edges(&mut self) -> (r: Result<(), RegistryError>)
        requires
            old(self).wf(),
        ensures
            final(self).wf(),
            final(self).packages == old(self).packages,
            final(self).package_count == old(self).package_count,
            final(self).node_indexes == old(self).node_indexes,
            final(self).rewrites == old(self).rewrites,
            graph_nodes(final(self).package_graph) == graph_nodes(old(self).package_graph),
            match old(self).declared_edges(old(self).packages@.len()) {
                Err(e) => r matches Err(given) && given@ == e && graph_edges(
                    final(self).package_graph,
                ) == graph_edges(old(self).package_graph),
                Ok(edges) => if graph_edges(old(self).package_graph).len() + edges.len()
                    <= u32::MAX {
                    r is Ok && graph_edges(final(self).package_graph) == graph_edges(
                        old(self).package_graph,
                    ).add(edges.to_multiset())
                } else {
                    r == Err::<(), RegistryError>(RegistryError::GraphFull) && graph_edges(
                        final(self).package_graph,
                    ) == graph_edges(old(self).package_graph)
                },
            },
    {
        let edges = match self.resolve_edges() {
            Ok(edges) => edges,
            Err(e) => {
                return Err(e);
            },
        };
        let held = edge_count(&self.package_graph);
        if held > u32::MAX as usize || edges.len() > u32::MAX as usize - held {
            return Err(RegistryError::GraphFull);
        }
        let ghost views = edges_view(edges@);
        let ghost start = graph_edges(self.package_graph);
        proof {
            lemma_edges_are_nodes(*self, self.packages@.len());
            assert(views.take(0) =~= Seq::<(int, int)>::empty());
            let none = Seq::<(int, int)>::empty();
            none.to_multiset_ensures();
            vstd::multiset::lemma_multiset_empty_len(none.to_multiset());
            assert(start.add(none.to_multiset()) =~= start);
        }
        let mut k: usize = 0;
        while k < edges.len()
            invariant
                self.wf(),
                k <= edges.len(),
                views == edges_view(edges@),
                self.packages == old(self).packages,
                self.package_count == old(self).package_count,
                self.node_indexes == old(self).node_indexes,
                self.rewrites == old(self).rewrites,
                graph_nodes(self.package_graph) == graph_nodes(old(self).package_graph),
                start == graph_edges(old(self).package_graph),
                start.len() + edges.len() <= u32::MAX,
                graph_edges(self.package_graph) == start.add(views.take(k as int).to_multiset()),
                forall|j: int|
                    0 <= j < views.len() ==> graph_nodes(self.package_graph).dom().contains(
                        (#[trigger] views[j]).0,
                    ) && graph_nodes(self.package_graph).dom().contains(views[j].1),
            decreases edges.len() - k,
        {
            let (from, to) = edges[k];
            proof {
                assert(views[k as int] == (from as int, to as int));
                views.take(k as int).to_multiset_ensures();
                assert(views.take(k + 1) =~= views.take(k as int).push(views[k as int]));
                to_multiset_build(views.take(k as int), views[k as int]);
                assert(start.add(views.take(k as int).to_multiset()).insert(views[k as int])
                    =~= start.add(views.take(k as int).to_multiset().insert(views[k as int])));
            }
            add_edge(&mut self.package_graph, from, to);
            k = k + 1;
        }
        assert(views.take(edges.len() as int) == views);
        Ok(())
    }
}

/// The number of candidates with a lock among the first `n` lies in `0..=n`.
pub proof fn lemma_locked_bounds(candidates: Seq<PackageCandidate>, n: int)
    requires
        0 <= n,
    ensures
        0 <= locked(candidates, n) <= n,
    decreases n,
{
    if n > 0 {
        lemma_locked_bounds(candidates, n - 1);
    }
}

/// A candidate with a lock is counted behind every candidate before it.
pub proof fn lemma_locked_strict(candidates: Seq<PackageCandidate>, i: int, n: int)
    requires
        0 <= i < n,
        candidates[i].lock is Some,
    ensures
        locked(candidates, i) < locked(candidates, n),
    decreases n,
{
    if i < n - 1 {
        lemma_locked_strict(candidates, i, n - 1);
    } else {
        assert(locked(candidates, n) == locked(candidates, i) + 1);
    }
}

/// Once a dependency does not resolve, further packages change nothing.
pub proof fn lemma_declared_error_stays(registry: PackageRegistry, k: nat, m: nat)
    requires
        k <= m,
        registry.declared_edges(k) is Err,
    ensures
        registry.declared_edges(m) == registry.declared_edges(k),
    decreases m,
{
    if k < m {
        lemma_declared_error_stays(registry, k, (m - 1) as nat);
    }
}

/// In a consistent registry every declared edge joins nodes of the graph.
pub proof fn lemma_edges_are_nodes(registry: PackageRegistry, n: nat)
    requires
        registry.wf(),
        n <= registry.packages@.len(),
    ensures
        registry.declared_edges(n) matches Ok(edges) ==> forall|j: int|
            0 <= j < edges.len() ==> graph_nodes(registry.package_graph).dom().contains(
                (#[trigger] edges[j]).0,
            ) && graph_nodes(registry.package_graph).dom().contains(edges[j].1),
    decreases n,
{
    if n > 0 {
        lemma_edges_are_nodes(registry, (n - 1) as nat);
        let package = registry.packages@[n - 1].1;
        let deps = declared(package, registry.rewrites@);
        lemma_positions_in_range(registry, package, deps, deps.len());
        match (registry.declared_edges((n - 1) as nat), dependency_positions(registry, package)) {
            (Ok(before), Ok(positions)) => {
                let added = registry.edges_from(n - 1, positions);
                let edges = before + added;
                assert forall|j: int| 0 <= j < edges.len() implies graph_nodes(
                    registry.package_graph,
                ).dom().contains((#[trigger] edges[j]).0) && graph_nodes(
                    registry.package_graph,
                ).dom().contains(edges[j].1) by {
                    if j >= before.len() {
                        let k = j - before.len();
                        assert(edges[j] == added[k]);
                        assert(graph_nodes(registry.package_graph).dom().contains(
                            registry.node_indexes@[n - 1].1 as int,
                        ));
                        assert(graph_nodes(registry.package_graph).dom().contains(
                            registry.node_indexes@[positions[k] as int].1 as int,
                        ));
                    } else {
                        assert(edges[j] == before[j]);
                    }
                }
            },
            _ => {},
        }
    }
}

} // verus!
