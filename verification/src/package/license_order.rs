//! Grouping by verdict does not depend on the order in which scripts are
//! found.

use crate::package::license_extractor::{
    files_under, grouped, has_verdict, lemma_grouped_sorted, lemma_place_is, lemma_place_of,
    lemma_recorded_files, lemma_recorded_sorted, lemma_verdict_lt_total,
    lemma_verdict_lt_transitive, place_of, recorded, sorted, verdict_lt, FoundVerdict,
    ScriptLicenseView, VerdictFiles,
};
use vstd::prelude::*;
use vstd::seq_lib::{to_multiset_build, to_multiset_remove};

verus! {

/// The paths of `found` that stand with the verdict `v`, in the order of
/// `found`.
pub open spec fn paths_with(found: Seq<FoundVerdict>, v: ScriptLicenseView) -> Seq<Seq<char>>
    decreases found.len(),
{
    if found.len() == 0 {
        Seq::empty()
    } else if found.last().1 == v {
        paths_with(found.drop_last(), v).push(found.last().0)
    } else {
        paths_with(found.drop_last(), v)
    }
}

/// In an ordered map, a verdict is held exactly where an entry carries it.
pub proof fn lemma_has_verdict(map: Seq<VerdictFiles>, v: ScriptLicenseView)
    requires
        sorted(map),
    ensures
        has_verdict(map, v) <==> exists|k: int| 0 <= k < map.len() && (#[trigger] map[k]).0 == v,
{
    lemma_place_of(map, v);
    if exists|k: int| 0 <= k < map.len() && (#[trigger] map[k]).0 == v {
        let k = choose|k: int| 0 <= k < map.len() && (#[trigger] map[k]).0 == v;
        lemma_place_is(map, v, k);
    }
}

/// Recording a path under `v` adds the verdict `v` and no other.
pub proof fn lemma_recorded_has(
    map: Seq<VerdictFiles>,
    v: ScriptLicenseView,
    path: Seq<char>,
    w: ScriptLicenseView,
)
    requires
        sorted(map),
    ensures
        has_verdict(recorded(map, v, path), w) <==> (w == v || has_verdict(map, w)),
{
    let next = recorded(map, v, path);
    let i = place_of(map, v);
    lemma_place_of(map, v);
    lemma_recorded_sorted(map, v, path);
    lemma_has_verdict(map, w);
    lemma_has_verdict(next, w);
    if has_verdict(map, v) {
        assert forall|k: int| 0 <= k < map.len() implies (#[trigger] next[k]).0 == map[k].0 by {}
        if has_verdict(map, w) {
            let k = choose|k: int| 0 <= k < map.len() && (#[trigger] map[k]).0 == w;
            assert(next[k].0 == w);
        }
        if has_verdict(next, w) {
            let k = choose|k: int| 0 <= k < next.len() && (#[trigger] next[k]).0 == w;
            assert(map[k].0 == w);
        }
    } else {
        assert(next[i].0 == v);
        if has_verdict(map, w) {
            let k = choose|k: int| 0 <= k < map.len() && (#[trigger] map[k]).0 == w;
            if k < i {
                assert(next[k] == map[k]);
            } else {
                assert(next[k + 1] == map[k]);
            }
        }
        if has_verdict(next, w) && w != v {
            let k = choose|k: int| 0 <= k < next.len() && (#[trigger] next[k]).0 == w;
            if k < i {
                assert(next[k] == map[k]);
            } else {
                assert(next[k] == map[k - 1]);
            }
        }
    }
}

/// What is grouped under `v` are the paths that stand with `v`, and `v` is
/// held exactly where a path stands with it.
pub proof fn lemma_grouped_by_verdict(found: Seq<FoundVerdict>, v: ScriptLicenseView)
    ensures
        files_under(grouped(found), v) == paths_with(found, v),
        has_verdict(grouped(found), v) <==> paths_with(found, v).len() > 0,
    decreases found.len(),
{
    if found.len() > 0 {
        let before = grouped(found.drop_last());
        let last = found.last();
        lemma_grouped_by_verdict(found.drop_last(), v);
        lemma_grouped_sorted(found.drop_last());
        lemma_recorded_files(before, last.1, last.0, v);
        lemma_recorded_has(before, last.1, last.0, v);
    }
}

/// Taking one entry out of `found` takes its path out of the paths that
/// stand with its verdict, and changes nothing for any other verdict.
pub proof fn lemma_paths_without(found: Seq<FoundVerdict>, v: ScriptLicenseView, j: int)
    requires
        0 <= j < found.len(),
    ensures
        paths_with(found, v).to_multiset() == if found[j].1 == v {
            paths_with(found.remove(j), v).to_multiset().insert(found[j].0)
        } else {
            paths_with(found.remove(j), v).to_multiset()
        },
    decreases found.len(),
{
    let last = found.last();
    let front = found.drop_last();
    if j == found.len() - 1 {
        assert(found.remove(j) == front);
        if last.1 == v {
            to_multiset_build(paths_with(front, v), last.0);
        }
    } else {
        let rest = found.remove(j);
        assert(rest.drop_last() == front.remove(j));
        assert(rest.last() == last);
        assert(front[j] == found[j]);
        lemma_paths_without(front, v, j);
        let a = paths_with(front, v);
        let b = paths_with(front.remove(j), v);
        if last.1 == v {
            to_multiset_build(a, last.0);
            to_multiset_build(b, last.0);
            if found[j].1 == v {
                assert(b.to_multiset().insert(found[j].0).insert(last.0) =~= b.to_multiset().insert(
                    last.0,
                ).insert(found[j].0));
            }
        }
    }
}

/// The paths that stand with a verdict, taken as a multiset, are the same
/// for every order of the entries.
pub proof fn lemma_paths_ignore_order(a: Seq<FoundVerdict>, b: Seq<FoundVerdict>, v: ScriptLicenseView)
    requires
        a.to_multiset() == b.to_multiset(),
    ensures
        paths_with(a, v).to_multiset() == paths_with(b, v).to_multiset(),
    decreases a.len(),
{
    a.to_multiset_ensures();
    b.to_multiset_ensures();
    if a.len() == 0 {
        assert(b.len() == 0);
        assert(a =~= b);
    } else {
        let x = a.last();
        let front = a.drop_last();
        assert(a == front.push(x));
        to_multiset_build(front, x);
        assert(a.contains(x));
        assert(b.to_multiset().count(x) > 0);
        assert(b.contains(x));
        let j = choose|j: int| 0 <= j < b.len() && b[j] == x;
        to_multiset_remove(b, j);
        assert(front.to_multiset() =~= b.remove(j).to_multiset());
        lemma_paths_ignore_order(front, b.remove(j), v);
        lemma_paths_without(b, v, j);
        if x.1 == v {
            to_multiset_build(paths_with(front, v), x.0);
        }
    }
}

/// Two ordered maps that hold the same verdicts hold them at the same
/// places.
pub proof fn lemma_same_verdicts_same_places(x: Seq<VerdictFiles>, y: Seq<VerdictFiles>)
    requires
        sorted(x),
        sorted(y),
        forall|v: ScriptLicenseView| has_verdict(x, v) == has_verdict(y, v),
    ensures
        x.len() == y.len(),
        forall|k: int| 0 <= k < x.len() ==> (#[trigger] x[k]).0 == y[k].0,
    decreases x.len(),
{
    if x.len() == 0 {
        if y.len() > 0 {
            lemma_has_verdict(y, y[0].0);
            lemma_has_verdict(x, y[0].0);
            assert(has_verdict(y, y[0].0));
        }
    } else {
        let first = x[0].0;
        lemma_has_verdict(x, first);
        lemma_has_verdict(y, first);
        assert(has_verdict(x, first));
        let k = choose|k: int| 0 <= k < y.len() && (#[trigger] y[k]).0 == first;
        let other = y[0].0;
        lemma_has_verdict(y, other);
        lemma_has_verdict(x, other);
        assert(has_verdict(y, other));
        let m = choose|m: int| 0 <= m < x.len() && (#[trigger] x[m]).0 == other;
        lemma_verdict_lt_total(first, other);
        if first != other {
            // `first` stands behind `other` in `y`, and `other` behind `first`
            // in `x`.
            assert(k > 0 && m > 0);
            assert(verdict_lt(y[0].0, y[k].0));
            assert(verdict_lt(x[0].0, x[m].0));
            lemma_verdict_lt_transitive(first, other, first);
        }
        let xs = x.drop_first();
        let ys = y.drop_first();
        assert forall|a: int, b: int| 0 <= a < b < xs.len() implies verdict_lt(
            #[trigger] xs[a].0,
            #[trigger] xs[b].0,
        ) by {
            assert(xs[a] == x[a + 1] && xs[b] == x[b + 1]);
        }
        assert forall|a: int, b: int| 0 <= a < b < ys.len() implies verdict_lt(
            #[trigger] ys[a].0,
            #[trigger] ys[b].0,
        ) by {
            assert(ys[a] == y[a + 1] && ys[b] == y[b + 1]);
        }
        assert forall|v: ScriptLicenseView| has_verdict(xs, v) == has_verdict(ys, v) by {
            lemma_has_verdict(x, v);
            lemma_has_verdict(y, v);
            lemma_has_verdict(xs, v);
            lemma_has_verdict(ys, v);
            lemma_verdict_lt_total(v, v);
            if has_verdict(xs, v) {
                let i = choose|i: int| 0 <= i < xs.len() && (#[trigger] xs[i]).0 == v;
                assert(x[i + 1].0 == v);
                assert(verdict_lt(x[0].0, x[i + 1].0));
                let j = choose|j: int| 0 <= j < y.len() && (#[trigger] y[j]).0 == v;
                assert(j > 0);
                assert(ys[j - 1].0 == v);
            }
            if has_verdict(ys, v) {
                let i = choose|i: int| 0 <= i < ys.len() && (#[trigger] ys[i]).0 == v;
                assert(y[i + 1].0 == v);
                assert(verdict_lt(y[0].0, y[i + 1].0));
                let j = choose|j: int| 0 <= j < x.len() && (#[trigger] x[j]).0 == v;
                assert(j > 0);
                assert(xs[j - 1].0 == v);
            }
        }
        lemma_same_verdicts_same_places(xs, ys);
        assert forall|i: int| 0 <= i < x.len() implies (#[trigger] x[i]).0 == y[i].0 by {
            if i > 0 {
                assert(xs[i - 1] == x[i]);
                assert(ys[i - 1] == y[i]);
            }
        }
    }
}

/// Grouping does not depend on the order of discovery: two lists of the
/// same paths with the same verdicts, in any order, give the same verdicts at
/// the same places, and under each verdict the same paths, each as often.
pub proof fn lemma_grouping_ignores_order(a: Seq<FoundVerdict>, b: Seq<FoundVerdict>)
    requires
        a.to_multiset() == b.to_multiset(),
    ensures
        grouped(a).len() == grouped(b).len(),
        forall|k: int| 0 <= k < grouped(a).len() ==> (#[trigger] grouped(a)[k]).0 == grouped(b)[k].0,
        forall|v: ScriptLicenseView|
            #![trigger files_under(grouped(a), v)]
            files_under(grouped(a), v).to_multiset() == files_under(grouped(b), v).to_multiset(),
{
    let x = grouped(a);
    let y = grouped(b);
    lemma_grouped_sorted(a);
    lemma_grouped_sorted(b);
    assert forall|v: ScriptLicenseView|
        has_verdict(x, v) == has_verdict(y, v) && files_under(x, v).to_multiset() == files_under(
            y,
            v,
        ).to_multiset() by {
        lemma_grouped_by_verdict(a, v);
        lemma_grouped_by_verdict(b, v);
        lemma_paths_ignore_order(a, b, v);
        paths_with(a, v).to_multiset_ensures();
        paths_with(b, v).to_multiset_ensures();
    }
    lemma_same_verdicts_same_places(x, y);
}

} // verus!
