//! The dependency tree of a package, drawn as indented text.

use crate::package::package_lock::{
    dependencies_of, dependencies_view, version_text, LockDependency, LockDependencyView,
    LockErrorView,
};
use crate::package::package_rewrite::PackageRewrite;
use crate::package::stream::{
    prefix_of, with_line, with_lines, written, Indent, Stream, BLANK_SYMBOL, DOWN_SYMBOL,
    ELL_SYMBOL,
};
use crate::package::{
    is_rewritten, lemma_path_grows, path_holds, path_with, start_path, valid_path, Package,
};
use crate::package_registry::{
    query_of, PackageQuery, PackageRegistry, RegistryError, RegistryErrorView,
};
use crate::text::lemma_split_on_none;
use vstd::prelude::*;
use vstd::string::StringExecFns;

verus! {

/// What a stream holds: the text written so far and the open levels.
pub struct TreeState {
    pub text: Seq<char>,
    pub indents: Seq<Indent>,
}

/// What `stream` holds.
pub open spec fn state_of(stream: Stream) -> TreeState {
    TreeState { text: stream.stream@, indents: stream.indents@ }
}

/// The line of a package of the registry: `core-packages/`, its registry
/// name and its version, and a note where a rule replaces it.
pub open spec fn package_line(package: Package, rules: Seq<PackageRewrite>) -> Seq<char> {
    let line = "core-packages/"@ + package.name.registry_name@ + " (v"@ + package.lock.version@
        + ")"@;
    if is_rewritten(package.name.registry_name@, package.lock.version@, rules) {
        line + " (rewritten)"@
    } else {
        line
    }
}

/// The line of a dependency that a rule has replaced: it lies outside the
/// registry.
pub open spec fn external_line(dep: LockDependencyView) -> Seq<char> {
    dep.registry_name + " (v"@ + version_text(dep.version) + ") (external)"@
}

/// The position of the package with the name and the version of `dep`.
pub open spec fn tree_position(registry: PackageRegistry, dep: LockDependencyView) -> int {
    registry.position_of(query_of(dep))
}

/// Whether the dependency at position `k` of `deps` is drawn as the last of
/// its level: nothing follows it, or what follows it is a package already on
/// `path`.
pub open spec fn closes_level(
    registry: PackageRegistry,
    path: Seq<usize>,
    deps: Seq<LockDependencyView>,
    k: int,
) -> bool {
    if k + 1 >= deps.len() {
        true
    } else {
        let next = tree_position(registry, deps[k + 1]);
        0 <= next < registry.packages@.len() && path.contains(next as usize)
    }
}

/// The stream after the tree of `package` was drawn, reached along `path`.
///
/// The package's line is written first. Where its dependencies can be read,
/// the innermost level keeps its line unless the package was the last of its
/// level, a level is opened for the dependencies, they are drawn in order,
/// and the level is closed again.
pub open spec fn rendered(
    state: TreeState,
    package: Package,
    registry: PackageRegistry,
    path: Seq<usize>,
    final_package: bool,
) -> Result<TreeState, RegistryErrorView>
    decreases registry.packages@.len() - path.len(), 1nat, 0nat,
    when valid_path(registry, path)
{
    let text = written(
        state.text,
        state.indents,
        package_line(package, registry.rewrites@),
        final_package,
    );
    match dependencies_of(package.lock, registry.rewrites@) {
        Err(_) => Ok(TreeState { text, indents: state.indents }),
        Ok(deps) => {
            let indents = state.indents.update(
                state.indents.len() - 1,
                if final_package {
                    Indent::Gap
                } else {
                    Indent::Line
                },
            ).push(Indent::Line);
            match rendered_dependencies(
                TreeState { text, indents },
                package,
                registry,
                path,
                deps,
                deps.len(),
            ) {
                Err(e) => Err(e),
                Ok(after) => Ok(TreeState { text: after.text, indents: after.indents.drop_last() }),
            }
        },
    }
}

/// The stream after the first `n` of `deps`, dependencies of `package`, were
/// drawn.
///
/// A rewritten dependency is one line, marked as external. Any other must be
/// a package of the registry, by name and version. One that is already on
/// `path` is one line and is not entered again, which ends every cycle; any
/// other is drawn as a tree of its own, with its position added to the path.
pub open spec fn rendered_dependencies(
    state: TreeState,
    package: Package,
    registry: PackageRegistry,
    path: Seq<usize>,
    deps: Seq<LockDependencyView>,
    n: nat,
) -> Result<TreeState, RegistryErrorView>
    decreases registry.packages@.len() - path.len(), 0nat, n,
    when valid_path(registry, path)
{
    if n == 0 {
        Ok(state)
    } else {
        match rendered_dependencies(state, package, registry, path, deps, (n - 1) as nat) {
            Err(e) => Err(e),
            Ok(before) => {
                let dep = deps[n - 1];
                let i = tree_position(registry, dep);
                let last = closes_level(registry, path, deps, n - 1);
                if dep.is_rewritten {
                    Ok(
                        TreeState {
                            text: written(before.text, before.indents, external_line(dep), false),
                            indents: before.indents,
                        },
                    )
                } else if !(0 <= i < registry.packages@.len()) {
                    Err(
                        RegistryErrorView::UnresolvedDependency {
                            dependant: package.name.path_name@,
                            name: dep.registry_name,
                            version: version_text(dep.version),
                        },
                    )
                } else if path.contains(i as usize) {
                    Ok(
                        TreeState {
                            text: written(
                                before.text,
                                before.indents,
                                package_line(registry.packages@[i].1, registry.rewrites@),
                                last,
                            ),
                            indents: before.indents,
                        },
                    )
                } else {
                    proof {
                        lemma_path_grows(registry, path, i as usize);
                    }
                    rendered(before, registry.packages@[i].1, registry, path.push(i as usize), last)
                }
            },
        }
    }
}

/// Drawing a tree leaves as many levels open as it found.
pub proof fn lemma_rendered_depth(
    state: TreeState,
    package: Package,
    registry: PackageRegistry,
    path: Seq<usize>,
    final_package: bool,
)
    requires
        valid_path(registry, path),
        state.indents.len() >= 1,
    ensures
        rendered(state, package, registry, path, final_package) matches Ok(after)
            ==> after.indents.len() == state.indents.len(),
    decreases registry.packages@.len() - path.len(), 1nat, 0nat,
{
    match dependencies_of(package.lock, registry.rewrites@) {
        Err(_) => {},
        Ok(deps) => {
            let text = written(
                state.text,
                state.indents,
                package_line(package, registry.rewrites@),
                final_package,
            );
            let indents = state.indents.update(
                state.indents.len() - 1,
                if final_package {
                    Indent::Gap
                } else {
                    Indent::Line
                },
            ).push(Indent::Line);
            lemma_rendered_dependencies_depth(
                TreeState { text, indents },
                package,
                registry,
                path,
                deps,
                deps.len(),
            );
        },
    }
}

/// Drawing dependencies leaves as many levels open as it found.
pub proof fn lemma_rendered_dependencies_depth(
    state: TreeState,
    package: Package,
    registry: PackageRegistry,
    path: Seq<usize>,
    deps: Seq<LockDependencyView>,
    n: nat,
)
    requires
        valid_path(registry, path),
        state.indents.len() >= 1,
    ensures
        rendered_dependencies(state, package, registry, path, deps, n) matches Ok(after)
            ==> after.indents.len() == state.indents.len(),
    decreases registry.packages@.len() - path.len(), 0nat, n,
{
    if n > 0 {
        lemma_rendered_dependencies_depth(state, package, registry, path, deps, (n - 1) as nat);
        match rendered_dependencies(state, package, registry, path, deps, (n - 1) as nat) {
            Err(_) => {},
            Ok(before) => {
                let dep = deps[n - 1];
                let i = tree_position(registry, dep);
                if !dep.is_rewritten && 0 <= i < registry.packages@.len() && !path.contains(
                    i as usize,
                ) {
                    lemma_path_grows(registry, path, i as usize);
                    lemma_rendered_depth(
                        before,
                        registry.packages@[i].1,
                        registry,
                        path.push(i as usize),
                        closes_level(registry, path, deps, n - 1),
                    );
                }
            },
        }
    }
}

/// Once a dependency is no package of the registry, drawing further
/// dependencies changes nothing.
pub proof fn lemma_rendered_error_stays(
    state: TreeState,
    package: Package,
    registry: PackageRegistry,
    path: Seq<usize>,
    deps: Seq<LockDependencyView>,
    k: nat,
    m: nat,
)
    requires
        valid_path(registry, path),
        k <= m,
        rendered_dependencies(state, package, registry, path, deps, k) is Err,
    ensures
        rendered_dependencies(state, package, registry, path, deps, m) == rendered_dependencies(
            state,
            package,
            registry,
            path,
            deps,
            k,
        ),
    decreases m,
{
    if k < m {
        lemma_rendered_error_stays(state, package, registry, path, deps, k, (m - 1) as nat);
    }
}

/// The levels that are open below a package drawn under `indents`: the
/// innermost level keeps its line unless the package was the last of its
/// level, and one more level is opened.
pub open spec fn opened(indents: Seq<Indent>, final_package: bool) -> Seq<Indent> {
    indents.update(
        indents.len() - 1,
        if final_package {
            Indent::Gap
        } else {
            Indent::Line
        },
    ).push(Indent::Line)
}

/// Whether `package` has exactly one dependency, which no rule has replaced
/// and which is the package at position `child`.
pub open spec fn has_only_child(package: Package, registry: PackageRegistry, child: int) -> bool {
    &&& dependencies_of(package.lock, registry.rewrites@) matches Ok(deps)
    &&& deps.len() == 1
    &&& !deps[0].is_rewritten
    &&& tree_position(registry, deps[0]) == child
    &&& 0 <= child < registry.packages@.len()
}

/// Whether `package` has no dependency to draw.
pub open spec fn has_no_child(package: Package, registry: PackageRegistry) -> bool {
    match dependencies_of(package.lock, registry.rewrites@) {
        Ok(deps) => deps.len() == 0,
        Err(_) => true,
    }
}

/// A package without dependencies is one line.
pub proof fn lemma_tree_of_a_leaf(
    state: TreeState,
    package: Package,
    registry: PackageRegistry,
    path: Seq<usize>,
    final_package: bool,
)
    requires
        valid_path(registry, path),
        has_no_child(package, registry),
    ensures
        rendered(state, package, registry, path, final_package) matches Ok(after) && after.text
            == written(
            state.text,
            state.indents,
            package_line(package, registry.rewrites@),
            final_package,
        ),
{
    match dependencies_of(package.lock, registry.rewrites@) {
        Ok(deps) => {
            let text = written(
                state.text,
                state.indents,
                package_line(package, registry.rewrites@),
                final_package,
            );
            let below = TreeState { text, indents: opened(state.indents, final_package) };
            assert(rendered_dependencies(below, package, registry, path, deps, 0) == Ok::<
                TreeState,
                RegistryErrorView,
            >(below));
        },
        Err(_) => {},
    }
}

/// The only dependency of a package is drawn as the last of its level: the
/// tree of the package is its line and, one level deeper, the tree of the
/// dependency, entered as a last child.
pub proof fn lemma_tree_of_an_only_child(
    state: TreeState,
    package: Package,
    registry: PackageRegistry,
    path: Seq<usize>,
    final_package: bool,
    child: usize,
)
    requires
        valid_path(registry, path),
        has_only_child(package, registry, child as int),
        !path.contains(child),
    ensures
        valid_path(registry, path.push(child)),
        rendered(state, package, registry, path, final_package) == match rendered(
            TreeState {
                text: written(
                    state.text,
                    state.indents,
                    package_line(package, registry.rewrites@),
                    final_package,
                ),
                indents: opened(state.indents, final_package),
            },
            registry.packages@[child as int].1,
            registry,
            path.push(child),
            true,
        ) {
            Ok(after) => Ok::<TreeState, RegistryErrorView>(
                TreeState { text: after.text, indents: after.indents.drop_last() },
            ),
            Err(e) => Err::<TreeState, RegistryErrorView>(e),
        },
{
    lemma_path_grows(registry, path, child);
    let deps = dependencies_of(package.lock, registry.rewrites@)->Ok_0;
    let below = TreeState {
        text: written(
            state.text,
            state.indents,
            package_line(package, registry.rewrites@),
            final_package,
        ),
        indents: opened(state.indents, final_package),
    };
    assert(rendered_dependencies(below, package, registry, path, deps, 0) == Ok::<
        TreeState,
        RegistryErrorView,
    >(below));
    assert(closes_level(registry, path, deps, 0));
    assert(rendered_dependencies(below, package, registry, path, deps, 1) == rendered(
        below,
        registry.packages@[child as int].1,
        registry,
        path.push(child),
        true,
    ));
}

/// A dependency that leads back to a package on the path is drawn as one
/// line and is not entered: the tree of a package whose only dependency is
/// on the path is two lines, its own and that of the dependency as a last
/// child. So the tree of a cycle ends where the cycle closes.
pub proof fn lemma_tree_ends_on_the_path(
    state: TreeState,
    package: Package,
    registry: PackageRegistry,
    path: Seq<usize>,
    final_package: bool,
    child: usize,
)
    requires
        valid_path(registry, path),
        has_only_child(package, registry, child as int),
        path.contains(child),
    ensures
        rendered(state, package, registry, path, final_package) matches Ok(after) && after.text
            == written(
            written(
                state.text,
                state.indents,
                package_line(package, registry.rewrites@),
                final_package,
            ),
            opened(state.indents, final_package),
            package_line(registry.packages@[child as int].1, registry.rewrites@),
            true,
        ),
{
    let deps = dependencies_of(package.lock, registry.rewrites@)->Ok_0;
    let below = TreeState {
        text: written(
            state.text,
            state.indents,
            package_line(package, registry.rewrites@),
            final_package,
        ),
        indents: opened(state.indents, final_package),
    };
    assert(rendered_dependencies(below, package, registry, path, deps, 0) == Ok::<
        TreeState,
        RegistryErrorView,
    >(below));
    assert(closes_level(registry, path, deps, 0));
    assert(rendered_dependencies(below, package, registry, path, deps, 1) is Ok);
}

/// The tree of a cycle of two: where the only dependency of the package at
/// `a` is the package at `b`, and the only dependency of that is the package
/// at `a` again, the tree drawn from `a` is three lines and no more.
pub proof fn lemma_tree_of_a_cycle(state: TreeState, registry: PackageRegistry, a: usize, b: usize)
    requires
        a < registry.packages@.len(),
        a != b,
        has_only_child(registry.packages@[a as int].1, registry, b as int),
        has_only_child(registry.packages@[b as int].1, registry, a as int),
    ensures
        rendered(state, registry.packages@[a as int].1, registry, seq![a], false) matches Ok(
            after,
        ) && after.text == written(
            written(
                written(
                    state.text,
                    state.indents,
                    package_line(registry.packages@[a as int].1, registry.rewrites@),
                    false,
                ),
                opened(state.indents, false),
                package_line(registry.packages@[b as int].1, registry.rewrites@),
                true,
            ),
            opened(opened(state.indents, false), true),
            package_line(registry.packages@[a as int].1, registry.rewrites@),
            true,
        ),
{
    let path = seq![a];
    assert(valid_path(registry, path));
    assert(!path.contains(b));
    lemma_tree_of_an_only_child(state, registry.packages@[a as int].1, registry, path, false, b);
    let below = TreeState {
        text: written(
            state.text,
            state.indents,
            package_line(registry.packages@[a as int].1, registry.rewrites@),
            false,
        ),
        indents: opened(state.indents, false),
    };
    let longer = path.push(b);
    assert(longer[0] == a);
    assert(longer.contains(a));
    lemma_tree_ends_on_the_path(below, registry.packages@[b as int].1, registry, longer, true, a);
}

/// The tree of a chain of three: where the only dependency of `package` is
/// the package at `b`, the only dependency of that is the package at `c`,
/// and that has none, the tree is three lines. The second and the third are
/// entered as last children, each one level deeper.
pub proof fn lemma_tree_of_a_chain(
    state: TreeState,
    package: Package,
    registry: PackageRegistry,
    path: Seq<usize>,
    final_package: bool,
    b: usize,
    c: usize,
)
    requires
        valid_path(registry, path),
        has_only_child(package, registry, b as int),
        has_only_child(registry.packages@[b as int].1, registry, c as int),
        has_no_child(registry.packages@[c as int].1, registry),
        !path.contains(b),
        !path.contains(c),
        b != c,
    ensures
        rendered(state, package, registry, path, final_package) matches Ok(after) && after.text
            == written(
            written(
                written(
                    state.text,
                    state.indents,
                    package_line(package, registry.rewrites@),
                    final_package,
                ),
                opened(state.indents, final_package),
                package_line(registry.packages@[b as int].1, registry.rewrites@),
                true,
            ),
            opened(opened(state.indents, final_package), true),
            package_line(registry.packages@[c as int].1, registry.rewrites@),
            true,
        ),
{
    lemma_tree_of_an_only_child(state, package, registry, path, final_package, b);
    let first = TreeState {
        text: written(
            state.text,
            state.indents,
            package_line(package, registry.rewrites@),
            final_package,
        ),
        indents: opened(state.indents, final_package),
    };
    let longer = path.push(b);
    assert(!longer.contains(c)) by {
        if longer.contains(c) {
            let k = choose|k: int| 0 <= k < longer.len() && longer[k] == c;
            if k < path.len() {
                assert(path[k] == c);
            }
        }
    }
    lemma_tree_of_an_only_child(first, registry.packages@[b as int].1, registry, longer, true, c);
    let second = TreeState {
        text: written(
            first.text,
            first.indents,
            package_line(registry.packages@[b as int].1, registry.rewrites@),
            true,
        ),
        indents: opened(first.indents, true),
    };
    lemma_tree_of_a_leaf(
        second,
        registry.packages@[c as int].1,
        registry,
        longer.push(c),
        true,
    );
}

/// Under the one level of a tree's root, the levels of a chain draw one
/// last-child connector each and no sibling connector: the second line
/// stands behind the line of the root's level and the connector of a last
/// child, the third behind the line, a blank column and the connector of a
/// last child.
pub proof fn lemma_connectors_of_a_chain()
    ensures
        prefix_of(opened(seq![Indent::Line], false), 2, true) == DOWN_SYMBOL@ + ELL_SYMBOL@,
        prefix_of(opened(opened(seq![Indent::Line], false), true), 3, true) == DOWN_SYMBOL@
            + BLANK_SYMBOL@ + ELL_SYMBOL@,
{
    let one = opened(seq![Indent::Line], false);
    let two = opened(one, true);
    assert(one =~= seq![Indent::Line, Indent::Line]);
    assert(two =~= seq![Indent::Line, Indent::Gap, Indent::Line]);
    reveal_with_fuel(prefix_of, 4);
    assert(prefix_of(one, 0, true) == Seq::<char>::empty());
    assert(prefix_of(two, 0, true) == Seq::<char>::empty());
    assert(Seq::<char>::empty() + DOWN_SYMBOL@ == DOWN_SYMBOL@);
}

/// A line without a line break is written as one line.
pub proof fn lemma_written_one_line(
    stream: Seq<char>,
    indents: Seq<Indent>,
    line: Seq<char>,
    final_line: bool,
)
    requires
        forall|k: int| 0 <= k < line.len() ==> line[k] != '\n',
    ensures
        written(stream, indents, line, final_line) == with_line(stream, indents, line, final_line),
{
    lemma_split_on_none(line, '\n');
    reveal_with_fuel(with_lines, 2);
}

/// The line of `package`.
fn line_of_package(package: &Package, rewrites: &Vec<PackageRewrite>) -> (r: String)
    ensures
        r@ == package_line(*package, rewrites@),
{
    let mut line = "core-packages/".to_owned();
    line.append(package.name.registry_name.as_str());
    line.append(" (v");
    line.append(package.lock.version.as_str());
    line.append(")");
    if package.is_package_rewritten(rewrites) {
        line.append(" (rewritten)");
    }
    line
}

/// The line of the rewritten dependency `dep`.
fn line_of_external(dep: &LockDependency) -> (r: String)
    ensures
        r@ == external_line(dep@),
{
    let mut line = dep.registry_name.clone();
    line.append(" (v");
    let version = dep.version.to_string();
    line.append(version.as_str());
    line.append(") (external)");
    line
}

/// The position of the package with the name and the version of `dep`.
fn position_in_tree(registry: &PackageRegistry, dep: &LockDependency) -> (i: usize)
    ensures
        i == tree_position(*registry, dep@),
        i <= registry.packages@.len(),
{
    let version = dep.version.to_string();
    registry.position(
        PackageQuery::RegistryNameAndVersion(dep.registry_name.as_str(), version.as_str()),
    )
}

/// Draws the tree of `package` into `stream`.
fn compute_package_tree_internal(
    stream: &mut Stream,
    package: &Package,
    registry: &PackageRegistry,
    previous_packages: &Vec<usize>,
    final_package: bool,
) -> (r: Result<(), RegistryError>)
    requires
        valid_path(*registry, previous_packages@),
        old(stream).indents@.len() >= 1,
    ensures
        match rendered(
            state_of(*old(stream)),
            *package,
            *registry,
            previous_packages@,
            final_package,
        ) {
            Ok(after) => r is Ok && state_of(*final(stream)) == after,
            Err(e) => r matches Err(given) && given@ == e,
        },
    decreases registry.packages@.len() - previous_packages@.len(),
{
    let ghost start = state_of(*stream);
    let ghost path = previous_packages@;
    let current_indent = stream.indents.len();
    let line = line_of_package(package, &registry.rewrites);
    stream.write_line(line.as_str(), final_package);
    let dependencies = match package.lock.parse_lock_dependencies(&registry.rewrites) {
        Ok(dependencies) => dependencies,
        Err(_) => {
            return Ok(());
        },
    };
    let ghost deps = dependencies_view(dependencies@);
    let indent = if final_package {
        Indent::Gap
    } else {
        Indent::Line
    };
    stream.indents.set(current_indent - 1, indent);
    stream.indents.push(Indent::Line);
    let ghost opened = state_of(*stream);
    let mut n: usize = 0;
    while n < dependencies.len()
        invariant
            n <= dependencies.len(),
            valid_path(*registry, path),
            path == previous_packages@,
            deps == dependencies_view(dependencies@),
            dependencies_of(package.lock, registry.rewrites@) == Ok::<
                Seq<LockDependencyView>,
                LockErrorView,
            >(deps),
            start == state_of(*old(stream)),
            start.indents.len() >= 1,
            opened == (TreeState {
                text: written(
                    start.text,
                    start.indents,
                    package_line(*package, registry.rewrites@),
                    final_package,
                ),
                indents: start.indents.update(
                    start.indents.len() - 1,
                    if final_package {
                        Indent::Gap
                    } else {
                        Indent::Line
                    },
                ).push(Indent::Line),
            }),
            opened.indents.len() >= 1,
            stream.indents@.len() == opened.indents.len(),
            rendered_dependencies(opened, *package, *registry, path, deps, n as nat) == Ok::<
                TreeState,
                RegistryErrorView,
            >(state_of(*stream)),
        decreases dependencies.len() - n,
    {
        let dependency = &dependencies[n];
        assert(deps[n as int] == dependency@);
        proof {
            lemma_rendered_dependencies_depth(
                opened,
                *package,
                *registry,
                path,
                deps,
                (n + 1) as nat,
            );
        }
        if dependency.is_rewritten {
            let line = line_of_external(dependency);
            stream.write_line(line.as_str(), false);
        } else {
            let i = position_in_tree(registry, dependency);
            if i >= registry.packages.len() {
                proof {
                    lemma_rendered_error_stays(
                        opened,
                        *package,
                        *registry,
                        path,
                        deps,
                        (n + 1) as nat,
                        deps.len(),
                    );
                }
                return Err(
                    RegistryError::UnresolvedDependency {
                        dependant: package.name.path_name.clone(),
                        name: dependency.registry_name.clone(),
                        version: dependency.version.to_string(),
                    },
                );
            }
            let is_last_dependency = if n + 1 < dependencies.len() {
                assert(deps[n + 1] == dependencies@[n + 1]@);
                let next = position_in_tree(registry, &dependencies[n + 1]);
                next < registry.packages.len() && path_holds(previous_packages, next)
            } else {
                true
            };
            let dependency_package = &registry.packages[i].1;
            if path_holds(previous_packages, i) {
                let line = line_of_package(dependency_package, &registry.rewrites);
                stream.write_line(line.as_str(), is_last_dependency);
            } else {
                let next_path = path_with(previous_packages, i);
                proof {
                    lemma_path_grows(*registry, path, i);
                }
                match compute_package_tree_internal(
                    stream,
                    dependency_package,
                    registry,
                    &next_path,
                    is_last_dependency,
                ) {
                    Ok(_) => {},
                    Err(e) => {
                        proof {
                            lemma_rendered_error_stays(
                                opened,
                                *package,
                                *registry,
                                path,
                                deps,
                                (n + 1) as nat,
                                deps.len(),
                            );
                        }
                        return Err(e);
                    },
                }
            }
        }
        n = n + 1;
    }
    stream.indents.pop();
    Ok(())
}

/// The tree of `package` in `registry`, as text: the line of the package,
/// and below it, one level deeper each time, the trees of its dependencies.
/// The path begins at the package itself where the registry holds it.
pub open spec fn package_tree(package: Package, registry: PackageRegistry) -> Result<
    Seq<char>,
    RegistryErrorView,
> {
    match rendered(
        TreeState { text: Seq::empty(), indents: seq![Indent::Line] },
        package,
        registry,
        start_path(package, registry),
        false,
    ) {
        Ok(after) => Ok(after.text),
        Err(e) => Err(e),
    }
}

/// The view of a result of `compute_package_tree`.
pub open spec fn tree_view(r: Result<String, RegistryError>) -> Result<Seq<char>, RegistryErrorView> {
    match r {
        Ok(text) => Ok(text@),
        Err(e) => Err(e@),
    }
}

/// Draws the tree of a package and its dependencies.
pub fn compute_package_tree(package: &Package, registry: &PackageRegistry) -> (r: Result<
    String,
    RegistryError,
>)
    ensures
        tree_view(r) == package_tree(*package, *registry),
{
    let mut stream = Stream::new();
    stream.indents.push(Indent::Line);
    let path = package.start_path(registry);
    assert(stream.indents@ == seq![Indent::Line]);
    match compute_package_tree_internal(&mut stream, package, registry, &path, false) {
        Ok(_) => Ok(stream.stream),
        Err(e) => Err(e),
    }
}

} // verus!
