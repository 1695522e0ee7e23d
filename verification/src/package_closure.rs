//! The packages that a set of packages needs: the packages themselves and
//! everything that they depend on, directly or through other packages.

use crate::package::declared;
use crate::package_registry::{
    dependency_positions, lemma_positions_in_range, PackageQuery, PackageRef, PackageRegistry,
    QueryView, RegistryError, RegistryErrorView,
};
use crate::scan::{first_index, lemma_distinct_bounded, lemma_first_index_is};
use crate::text::strings_of;
use vstd::prelude::*;

verus! {

/// Whether `positions` holds the position `at`.
pub open spec fn lists(positions: Seq<usize>, at: int) -> bool {
    exists|k: int| 0 <= k < positions.len() && #[trigger] positions[k] as int == at
}

/// Whether the package at `from` depends on the package at `to`: `from` is
/// a position, all its dependencies resolve, and one resolves to `to`.
pub open spec fn depends_on(registry: PackageRegistry, from: int, to: int) -> bool {
    &&& 0 <= from < registry.packages@.len()
    &&& dependency_positions(registry, registry.packages@[from].1) is Ok
    &&& lists(dependency_positions(registry, registry.packages@[from].1)->Ok_0, to)
}

/// Whether `walk` leads from package to package along dependencies.
pub open spec fn is_walk(registry: PackageRegistry, walk: Seq<int>) -> bool {
    &&& walk.len() >= 1
    &&& forall|k: int|
        0 <= k < walk.len() - 1 ==> depends_on(registry, #[trigger] walk[k], walk[k + 1])
}

/// Whether the package at `to` is the package at `from` or one that it
/// depends on, directly or through other packages.
pub open spec fn reaches(registry: PackageRegistry, from: int, to: int) -> bool {
    exists|walk: Seq<int>|
        #[trigger] is_walk(registry, walk) && walk[0] == from && walk.last() == to
}

/// Whether one of the packages at `roots` reaches the package at `to`.
pub open spec fn needed(registry: PackageRegistry, roots: Seq<usize>, to: int) -> bool {
    exists|r: int| 0 <= r < roots.len() && reaches(registry, #[trigger] roots[r] as int, to)
}

/// Every package reaches itself.
pub proof fn lemma_reaches_itself(registry: PackageRegistry, at: int)
    ensures
        reaches(registry, at, at),
{
    let walk = seq![at];
    assert(is_walk(registry, walk));
    assert(walk[0] == at && walk.last() == at);
}

/// What reaches a package reaches what the package depends on.
pub proof fn lemma_reaches_further(registry: PackageRegistry, from: int, over: int, to: int)
    requires
        reaches(registry, from, over),
        depends_on(registry, over, to),
    ensures
        reaches(registry, from, to),
{
    let walk = choose|walk: Seq<int>|
        #[trigger] is_walk(registry, walk) && walk[0] == from && walk.last() == over;
    let longer = walk.push(to);
    assert forall|k: int| 0 <= k < longer.len() - 1 implies depends_on(
        registry,
        #[trigger] longer[k],
        longer[k + 1],
    ) by {
        if k < walk.len() - 1 {
            assert(longer[k] == walk[k] && longer[k + 1] == walk[k + 1]);
        } else {
            assert(longer[k] == over);
        }
    }
    assert(is_walk(registry, longer));
    assert(longer[0] == from && longer.last() == to);
}

/// A set of packages that holds a package and, with each package, what it
/// depends on, holds everything that the package reaches.
pub proof fn lemma_closed_holds_reached(
    registry: PackageRegistry,
    held: spec_fn(int) -> bool,
    walk: Seq<int>,
)
    requires
        is_walk(registry, walk),
        held(walk[0]),
        forall|u: int, v: int| held(u) && #[trigger] depends_on(registry, u, v) ==> held(v),
    ensures
        held(walk.last()),
    decreases walk.len(),
{
    if walk.len() > 1 {
        let front = walk.drop_last();
        assert forall|k: int| 0 <= k < front.len() - 1 implies depends_on(
            registry,
            #[trigger] front[k],
            front[k + 1],
        ) by {
            assert(front[k] == walk[k] && front[k + 1] == walk[k + 1]);
        }
        assert(is_walk(registry, front));
        assert(front[0] == walk[0]);
        lemma_closed_holds_reached(registry, held, front);
        assert(front.last() == walk[walk.len() - 2]);
        assert(depends_on(registry, walk[walk.len() - 2], walk[walk.len() - 2 + 1]));
    }
}

/// Whether `order` lists, each once, the positions that `seen` marks.
pub open spec fn tracks(seen: Seq<bool>, order: Seq<usize>) -> bool {
    &&& order.no_duplicates()
    &&& forall|j: int| 0 <= j < order.len() ==> (#[trigger] order[j]) < seen.len()
    &&& forall|v: int| 0 <= v < seen.len() ==> (#[trigger] seen[v] <==> lists(order, v))
}

/// Marking a position that is not marked, and listing it, keeps the list in
/// step with the marks.
pub proof fn lemma_tracks_mark(seen: Seq<bool>, order: Seq<usize>, at: usize)
    requires
        tracks(seen, order),
        at < seen.len(),
        !seen[at as int],
    ensures
        tracks(seen.update(at as int, true), order.push(at)),
{
    let marked = seen.update(at as int, true);
    let longer = order.push(at);
    assert forall|a: int, b: int| 0 <= a < longer.len() && 0 <= b < longer.len() && a != b implies longer[a]
        != longer[b] by {
        if a < order.len() && b < order.len() {
        } else if a < order.len() {
            assert(order.contains(longer[a]));
        } else {
            assert(order.contains(longer[b]));
        }
    }
    assert forall|v: int| 0 <= v < marked.len() implies (#[trigger] marked[v] <==> lists(
        longer,
        v,
    )) by {
        if v == at {
            assert(longer[longer.len() - 1] as int == v);
        } else {
            assert(marked[v] == seen[v]);
            if lists(order, v) {
                let j = choose|j: int| 0 <= j < order.len() && #[trigger] order[j] as int == v;
                assert(longer[j] as int == v);
            }
            if lists(longer, v) {
                let j = choose|j: int| 0 <= j < longer.len() && #[trigger] longer[j] as int == v;
                assert(order[j] as int == v);
            }
        }
    }
}

/// Whether every position of `order` is needed by `roots`.
pub open spec fn all_needed(registry: PackageRegistry, roots: Seq<usize>, order: Seq<usize>) -> bool {
    forall|j: int| 0 <= j < order.len() ==> needed(registry, roots, #[trigger] order[j] as int)
}

/// Whether the first `k` of `roots` are marked.
pub open spec fn roots_seen(roots: Seq<usize>, seen: Seq<bool>, k: int) -> bool {
    forall|j: int| 0 <= j < k ==> (#[trigger] roots[j]) < seen.len() && seen[roots[j] as int]
}

/// Whether the package at `at` is done with: its dependencies resolve, and
/// what they resolve to is marked.
pub open spec fn is_settled(registry: PackageRegistry, at: int, seen: Seq<bool>) -> bool {
    &&& dependency_positions(registry, registry.packages@[at].1) is Ok
    &&& forall|v: int| #[trigger] depends_on(registry, at, v) ==> 0 <= v < seen.len() && seen[v]
}

/// Whether the first `head` packages of `order` are done with.
pub open spec fn settled(
    registry: PackageRegistry,
    order: Seq<usize>,
    head: int,
    seen: Seq<bool>,
) -> bool {
    forall|j: int| 0 <= j < head ==> is_settled(registry, #[trigger] order[j] as int, seen)
}

/// Marking one more position undoes nothing.
pub proof fn lemma_mark_keeps(
    registry: PackageRegistry,
    roots: Seq<usize>,
    k: int,
    order: Seq<usize>,
    head: int,
    seen: Seq<bool>,
    at: usize,
)
    requires
        at < seen.len(),
        head <= order.len(),
        roots_seen(roots, seen, k),
        settled(registry, order, head, seen),
        all_needed(registry, roots, order),
        needed(registry, roots, at as int),
    ensures
        roots_seen(roots, seen.update(at as int, true), k),
        settled(registry, order.push(at), head, seen.update(at as int, true)),
        all_needed(registry, roots, order.push(at)),
{
    let marked = seen.update(at as int, true);
    let longer = order.push(at);
    assert forall|j: int| 0 <= j < k implies (#[trigger] roots[j]) < marked.len()
        && marked[roots[j] as int] by {
        assert(seen[roots[j] as int]);
    }
    assert forall|j: int| 0 <= j < head implies is_settled(
        registry,
        #[trigger] longer[j] as int,
        marked,
    ) by {
        assert(longer[j] == order[j]);
        assert(is_settled(registry, order[j] as int, seen));
        assert forall|v: int| #[trigger] depends_on(registry, longer[j] as int, v) implies 0 <= v
            < marked.len() && marked[v] by {
            assert(seen[v]);
        }
    }
    assert forall|j: int| 0 <= j < longer.len() implies needed(
        registry,
        roots,
        #[trigger] longer[j] as int,
    ) by {
        if j < order.len() {
            assert(longer[j] == order[j]);
        }
    }
}

/// Once every listed package is done with, the list holds exactly what the
/// roots need, and the dependencies of all of it resolve.
pub proof fn lemma_closure_exact(
    registry: PackageRegistry,
    roots: Seq<usize>,
    order: Seq<usize>,
    seen: Seq<bool>,
)
    requires
        seen.len() == registry.packages@.len(),
        tracks(seen, order),
        all_needed(registry, roots, order),
        roots_seen(roots, seen, roots.len() as int),
        settled(registry, order, order.len() as int, seen),
    ensures
        forall|v: int| needed(registry, roots, v) <==> #[trigger] lists(order, v),
        forall|v: int|
            needed(registry, roots, v) ==> dependency_positions(
                registry,
                #[trigger] registry.packages@[v].1,
            ) is Ok,
{
    let held = |v: int| 0 <= v < seen.len() && seen[v];
    assert forall|u: int, w: int| held(u) && #[trigger] depends_on(registry, u, w) implies held(
        w,
    ) by {
        assert(lists(order, u));
        let m = choose|m: int| 0 <= m < order.len() && #[trigger] order[m] as int == u;
        assert(is_settled(registry, order[m] as int, seen));
    }
    assert forall|v: int| needed(registry, roots, v) implies #[trigger] lists(order, v) by {
        let r = choose|r: int|
            0 <= r < roots.len() && reaches(registry, #[trigger] roots[r] as int, v);
        let walk = choose|walk: Seq<int>|
            #[trigger] is_walk(registry, walk) && walk[0] == roots[r] as int && walk.last() == v;
        assert(seen[roots[r] as int]);
        assert(held(walk[0]));
        lemma_closed_holds_reached(registry, held, walk);
        assert(held(v));
        assert(seen[v]);
    }
    assert forall|v: int| #[trigger] lists(order, v) implies needed(registry, roots, v) by {
        let m = choose|m: int| 0 <= m < order.len() && #[trigger] order[m] as int == v;
        assert(needed(registry, roots, order[m] as int));
    }
    assert forall|v: int| needed(registry, roots, v) implies dependency_positions(
        registry,
        #[trigger] registry.packages@[v].1,
    ) is Ok by {
        assert(lists(order, v));
        let m = choose|m: int| 0 <= m < order.len() && #[trigger] order[m] as int == v;
        assert(is_settled(registry, order[m] as int, seen));
    }
}

/// The positions of the packages named by `names`, each the first package
/// of that registry name.
pub open spec fn root_positions(registry: PackageRegistry, names: Seq<Seq<char>>) -> Seq<usize> {
    Seq::new(names.len(), |k: int| registry.position_of(QueryView::RegistryName(names[k])) as usize)
}

/// The first of `names` that no package of the registry has, or their
/// number.
pub open spec fn first_unknown(registry: PackageRegistry, names: Seq<Seq<char>>) -> int {
    first_index(
        names.len() as int,
        |k: int|
            !(0 <= registry.position_of(QueryView::RegistryName(names[k]))
                < registry.packages@.len()),
    )
}

/// The references of the packages at `order`, which count up from one.
pub open spec fn references(order: Seq<usize>) -> Seq<PackageRef> {
    order.map_values(|at: usize| PackageRef((at + 1) as u32))
}

/// Whether `refs` are the packages that `roots` need, each once, and the
/// dependencies of all of them resolve.
pub open spec fn is_closure(registry: PackageRegistry, roots: Seq<usize>, refs: Seq<PackageRef>) -> bool {
    exists|order: Seq<usize>|
        {
            &&& refs == #[trigger] references(order)
            &&& order.no_duplicates()
            &&& forall|j: int| 0 <= j < order.len() ==> (#[trigger] order[j]) < registry.packages@.len()
            &&& forall|v: int| needed(registry, roots, v) <==> #[trigger] lists(order, v)
            &&& forall|v: int|
                needed(registry, roots, v) ==> dependency_positions(
                    registry,
                    #[trigger] registry.packages@[v].1,
                ) is Ok
        }
}

/// Whether the dependencies of a package that `roots` need fail to resolve
/// with `e`.
pub open spec fn is_failure(registry: PackageRegistry, roots: Seq<usize>, e: RegistryErrorView) -> bool {
    exists|v: int|
        needed(registry, roots, v) && 0 <= v < registry.packages@.len() && dependency_positions(
            registry,
            #[trigger] registry.packages@[v].1,
        ) == Err::<Seq<usize>, RegistryErrorView>(e)
}

/// What a needed package depends on is needed.
pub proof fn lemma_needed_further(
    registry: PackageRegistry,
    roots: Seq<usize>,
    at: int,
    found: Seq<usize>,
    k: int,
)
    requires
        needed(registry, roots, at),
        0 <= at < registry.packages@.len(),
        dependency_positions(registry, registry.packages@[at].1) == Ok::<
            Seq<usize>,
            RegistryErrorView,
        >(found),
        0 <= k < found.len(),
    ensures
        needed(registry, roots, found[k] as int),
{
    let to = found[k] as int;
    assert(lists(found, to));
    assert(depends_on(registry, at, to));
    let r = choose|r: int| 0 <= r < roots.len() && reaches(registry, #[trigger] roots[r] as int, at);
    lemma_reaches_further(registry, roots[r] as int, at, to);
}

/// A package whose dependencies all resolve to marked packages is done
/// with.
pub proof fn lemma_settled_when_marked(
    registry: PackageRegistry,
    at: int,
    found: Seq<usize>,
    seen: Seq<bool>,
)
    requires
        0 <= at < registry.packages@.len(),
        dependency_positions(registry, registry.packages@[at].1) == Ok::<
            Seq<usize>,
            RegistryErrorView,
        >(found),
        forall|j: int|
            0 <= j < found.len() ==> (#[trigger] found[j]) < seen.len() && seen[found[j] as int],
    ensures
        is_settled(registry, at, seen),
{
    assert forall|v: int| #[trigger] depends_on(registry, at, v) implies 0 <= v < seen.len()
        && seen[v] by {
        let j = choose|j: int| 0 <= j < found.len() && #[trigger] found[j] as int == v;
        assert(seen[found[j] as int]);
    }
}

/// Marks `at` and lists it.
fn mark(seen: &mut Vec<bool>, order: &mut Vec<usize>, at: usize)
    requires
        tracks(old(seen)@, old(order)@),
        at < old(seen)@.len(),
        !old(seen)@[at as int],
    ensures
        final(seen)@ == old(seen)@.update(at as int, true),
        final(order)@ == old(order)@.push(at),
        tracks(final(seen)@, final(order)@),
{
    proof {
        lemma_tracks_mark(seen@, order@, at);
    }
    seen.set(at, true);
    order.push(at);
}

impl PackageRegistry {
    /// Marks and lists the needed package at `to`, unless it is marked.
    fn visit(
        &self,
        roots: Ghost<Seq<usize>>,
        seen: &mut Vec<bool>,
        order: &mut Vec<usize>,
        head: Ghost<int>,
        to: usize,
    )
        requires
            old(seen)@.len() == self.packages@.len(),
            to < old(seen)@.len(),
            head@ <= old(order)@.len(),
            tracks(old(seen)@, old(order)@),
            all_needed(*self, roots@, old(order)@),
            roots_seen(roots@, old(seen)@, roots@.len() as int),
            settled(*self, old(order)@, head@, old(seen)@),
            needed(*self, roots@, to as int),
        ensures
            final(seen)@.len() == old(seen)@.len(),
            final(seen)@[to as int],
            forall|v: int| 0 <= v < old(seen)@.len() && old(seen)@[v] ==> #[trigger] final(seen)@[v],
            old(order)@.len() <= final(order)@.len(),
            forall|j: int|
                0 <= j < old(order)@.len() ==> #[trigger] final(order)@[j] == old(order)@[j],
            tracks(final(seen)@, final(order)@),
            all_needed(*self, roots@, final(order)@),
            roots_seen(roots@, final(seen)@, roots@.len() as int),
            settled(*self, final(order)@, head@, final(seen)@),
    {
        if !seen[to] {
            proof {
                lemma_mark_keeps(*self, roots@, roots@.len() as int, order@, head@, seen@, to);
            }
            mark(seen, order, to);
        }
    }

    /// Lists, in turn, every package that a listed package depends on, until
    /// every listed package is done with.
    fn settle(&self, roots: Ghost<Seq<usize>>, seen: &mut Vec<bool>, order: &mut Vec<usize>) -> (r:
        Result<(), RegistryError>)
        requires
            old(seen)@.len() == self.packages@.len(),
            tracks(old(seen)@, old(order)@),
            all_needed(*self, roots@, old(order)@),
            roots_seen(roots@, old(seen)@, roots@.len() as int),
        ensures
            match r {
                Ok(_) => {
                    &&& final(seen)@.len() == self.packages@.len()
                    &&& tracks(final(seen)@, final(order)@)
                    &&& all_needed(*self, roots@, final(order)@)
                    &&& roots_seen(roots@, final(seen)@, roots@.len() as int)
                    &&& settled(*self, final(order)@, final(order)@.len() as int, final(seen)@)
                },
                Err(e) => is_failure(*self, roots@, e@),
            },
    {
        let total = self.packages.len();
        let mut head: usize = 0;
        while head < order.len()
            invariant
                head <= order@.len(),
                total == self.packages@.len(),
                seen@.len() == total,
                tracks(seen@, order@),
                all_needed(*self, roots@, order@),
                roots_seen(roots@, seen@, roots@.len() as int),
                settled(*self, order@, head as int, seen@),
            decreases total - head,
        {
            proof {
                lemma_distinct_bounded(order@, total as int);
            }
            let at = order[head];
            let package = &self.packages[at].1;
            assert(needed(*self, roots@, order@[head as int] as int));
            let found = match self.resolve_dependencies(package) {
                Ok(found) => found,
                Err(e) => {
                    return Err(e);
                },
            };
            proof {
                let deps = declared(*package, self.rewrites@);
                lemma_positions_in_range(*self, *package, deps, deps.len());
            }
            let mut n: usize = 0;
            while n < found.len()
                invariant
                    n <= found@.len(),
                    head < order@.len(),
                    at == order@[head as int],
                    at < total,
                    total == self.packages@.len(),
                    needed(*self, roots@, at as int),
                    dependency_positions(*self, self.packages@[at as int].1) == Ok::<
                        Seq<usize>,
                        RegistryErrorView,
                    >(found@),
                    forall|j: int| 0 <= j < found@.len() ==> (#[trigger] found@[j]) < total,
                    seen@.len() == total,
                    tracks(seen@, order@),
                    all_needed(*self, roots@, order@),
                    roots_seen(roots@, seen@, roots@.len() as int),
                    settled(*self, order@, head as int, seen@),
                    forall|j: int| 0 <= j < n ==> seen@[#[trigger] found@[j] as int],
                decreases found@.len() - n,
            {
                let to = found[n];
                let ghost marked = seen@;
                proof {
                    lemma_needed_further(*self, roots@, at as int, found@, n as int);
                }
                self.visit(roots, seen, order, Ghost(head as int), to);
                proof {
                    assert forall|j: int| 0 <= j < n + 1 implies seen@[#[trigger] found@[j] as int] by {
                        if j < n {
                            assert(marked[found@[j] as int]);
                        }
                    }
                }
                n = n + 1;
            }
            proof {
                lemma_settled_when_marked(*self, at as int, found@, seen@);
                assert(is_settled(*self, order@[head as int] as int, seen@));
            }
            head = head + 1;
        }
        Ok(())
    }

    /// The packages that the packages named by `root_names` need: they
    /// themselves and every package that one of them depends on, directly
    /// or through other packages, each once. A cycle of dependencies is
    /// walked once.
    ///
    /// There is no answer where a name is unknown, nor where a dependency of
    /// a needed package resolves to no package.
    pub fn needed_packages(&self, root_names: &Vec<String>) -> (r: Result<
        Vec<PackageRef>,
        RegistryError,
    >)
        requires
            self.wf(),
        ensures
            ({
                let names = strings_of(root_names@);
                let roots = root_positions(*self, names);
                let unknown = first_unknown(*self, names);
                match r {
                    Ok(refs) => unknown == names.len() && is_closure(*self, roots, refs@),
                    Err(e) => if 0 <= unknown < names.len() {
                        e@ == (RegistryErrorView::UnknownPackage { name: names[unknown] })
                    } else {
                        is_failure(*self, roots, e@)
                    },
                }
            }),
    {
        let ghost names = strings_of(root_names@);
        let ghost roots = root_positions(*self, names);
        let ghost is_unknown = |k: int|
            !(0 <= self.position_of(QueryView::RegistryName(names[k])) < self.packages@.len());
        let total = self.packages.len();
        let mut seen: Vec<bool> = Vec::new();
        let mut i: usize = 0;
        while i < total
            invariant
                i <= total,
                seen@.len() == i,
                forall|v: int| 0 <= v < i ==> !(#[trigger] seen@[v]),
            decreases total - i,
        {
            seen.push(false);
            i = i + 1;
        }
        let mut order: Vec<usize> = Vec::new();
        let mut k: usize = 0;
        while k < root_names.len()
            invariant
                k <= root_names.len(),
                total == self.packages@.len(),
                names == strings_of(root_names@),
                roots == root_positions(*self, names),
                is_unknown == (|k: int|
                    !(0 <= self.position_of(QueryView::RegistryName(names[k]))
                        < self.packages@.len())),
                forall|j: int| 0 <= j < k ==> !(#[trigger] is_unknown(j)),
                seen@.len() == total,
                tracks(seen@, order@),
                all_needed(*self, roots, order@),
                roots_seen(roots, seen@, k as int),
            decreases root_names.len() - k,
        {
            assert(names[k as int] == root_names@[k as int]@);
            let at = self.position(PackageQuery::RegistryName(root_names[k].as_str()));
            if at >= total {
                proof {
                    assert(is_unknown(k as int));
                    lemma_first_index_is(names.len() as int, is_unknown, k as int);
                }
                return Err(RegistryError::UnknownPackage { name: root_names[k].clone() });
            }
            assert(!is_unknown(k as int));
            assert(roots[k as int] == at);
            proof {
                lemma_reaches_itself(*self, at as int);
                assert(reaches(*self, roots[k as int] as int, at as int));
                assert(needed(*self, roots, at as int));
            }
            if !seen[at] {
                proof {
                    lemma_mark_keeps(*self, roots, k as int, order@, 0, seen@, at);
                }
                mark(&mut seen, &mut order, at);
            }
            assert(roots_seen(roots, seen@, k + 1)) by {
                assert forall|j: int| 0 <= j < k + 1 implies (#[trigger] roots[j]) < seen@.len()
                    && seen@[roots[j] as int] by {}
            }
            k = k + 1;
        }
        proof {
            lemma_first_index_is(names.len() as int, is_unknown, names.len() as int);
        }
        match self.settle(Ghost(roots), &mut seen, &mut order) {
            Ok(_) => {},
            Err(e) => {
                return Err(e);
            },
        }
        let mut refs: Vec<PackageRef> = Vec::new();
        let mut j: usize = 0;
        assert(refs@ =~= references(order@.take(0)));
        while j < order.len()
            invariant
                self.wf(),
                j <= order@.len(),
                total == self.packages@.len(),
                seen@.len() == total,
                tracks(seen@, order@),
                refs@ == references(order@.take(j as int)),
            decreases order@.len() - j,
        {
            let at = order[j];
            refs.push(self.packages[at].0);
            j = j + 1;
            proof {
                assert(self.packages@[at as int].0 == PackageRef((at + 1) as u32));
                assert(order@.take(j as int) =~= order@.take(j - 1).push(at));
                assert(refs@ =~= references(order@.take(j as int)));
            }
        }
        proof {
            assert(order@.take(order@.len() as int) == order@);
            lemma_closure_exact(*self, roots, order@, seen@);
            assert(refs@ == references(order@));
        }
        Ok(refs)
    }
}

} // verus!
