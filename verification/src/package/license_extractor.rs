//! License verdicts: per script, per package, and the classifier that finds
//! them in source text.

use crate::scan::{first_index, lemma_first_index, lemma_first_index_is};
use crate::text::{
    chars_eq, chars_lt, chars_of, contains, contains_seq, join, join_with,
    lemma_seq_lt_irreflexive, lemma_seq_lt_total, lemma_seq_lt_transitive, lowercase_of,
    remove_all, replace_char, replaced_char, seq_lt, split, split_on, starts_with, str_eq,
    string_of, strings_of, to_lowercase, trim, trimmed, views_of, without,
};
use askalono::TextData;
use vstd::prelude::*;

verus! {

/// The license finding for one script.
#[derive(Debug, Clone, Hash, PartialEq, Eq, PartialOrd, Ord)]
pub enum ScriptLicense {
    /// The script carries the named license.
    Licensed(String),
    /// No license was credited to the script.
    Unlicensed,
}

/// What a `ScriptLicense` holds.
pub enum ScriptLicenseView {
    Licensed(Seq<char>),
    Unlicensed,
}

impl View for ScriptLicense {
    type V = ScriptLicenseView;

    open spec fn view(&self) -> ScriptLicenseView {
        match self {
            ScriptLicense::Licensed(name) => ScriptLicenseView::Licensed(name@),
            ScriptLicense::Unlicensed => ScriptLicenseView::Unlicensed,
        }
    }
}

/// Why a package is not licensed.
#[derive(Debug, Hash, PartialEq, Eq, PartialOrd, Ord)]
pub enum UnlicensedPackageReason {
    /// Scripts of the package itself are unlicensed: their paths.
    UnlicensedScripts(Vec<String>),
    /// Dependencies are unlicensed: for each, its registry name, its version
    /// and why it is unlicensed.
    UnlicensedDependencies(Vec<(String, String, UnlicensedPackageReason)>),
}

/// What an `UnlicensedPackageReason` holds.
pub enum ReasonView {
    Scripts(Seq<Seq<char>>),
    Dependencies(Seq<(Seq<char>, Seq<char>, ReasonView)>),
}

/// One dependency that keeps a package from being licensed: its registry
/// name, its version and the reason.
pub type Blocking = (Seq<char>, Seq<char>, ReasonView);

/// What `reason` holds.
pub open spec fn reason_view(reason: UnlicensedPackageReason) -> ReasonView
    decreases reason, 0nat,
{
    match reason {
        UnlicensedPackageReason::UnlicensedScripts(paths) => ReasonView::Scripts(
            strings_of(paths@),
        ),
        UnlicensedPackageReason::UnlicensedDependencies(deps) => ReasonView::Dependencies(
            entries_view(deps@, deps@.len()),
        ),
    }
}

/// What the first `n` of `deps` hold.
pub open spec fn entries_view(deps: Seq<(String, String, UnlicensedPackageReason)>, n: nat) -> Seq<
    Blocking,
>
    decreases deps, n,
{
    if n == 0 || n > deps.len() {
        Seq::empty()
    } else {
        entries_view(deps, (n - 1) as nat).push(
            (deps[n - 1].0@, deps[n - 1].1@, reason_view(deps[n - 1].2)),
        )
    }
}

/// `entries_view` holds one entry per dependency, each the view of its
/// dependency.
pub proof fn lemma_entries_view(deps: Seq<(String, String, UnlicensedPackageReason)>, n: nat)
    requires
        n <= deps.len(),
    ensures
        entries_view(deps, n).len() == n,
        forall|k: int|
            0 <= k < n ==> #[trigger] entries_view(deps, n)[k] == (
                deps[k].0@,
                deps[k].1@,
                reason_view(deps[k].2),
            ),
    decreases n,
{
    if n > 0 {
        lemma_entries_view(deps, (n - 1) as nat);
    }
}

impl View for UnlicensedPackageReason {
    type V = ReasonView;

    open spec fn view(&self) -> ReasonView {
        reason_view(*self)
    }
}

/// The paths of every unlicensed script that `reason` names, those of a
/// dependency's dependencies included, in the order in which the reason
/// lists them.
pub open spec fn blocking_files(reason: ReasonView) -> Seq<Seq<char>>
    decreases reason, 0nat,
{
    match reason {
        ReasonView::Scripts(paths) => paths,
        ReasonView::Dependencies(deps) => dependency_files(deps, deps.len()),
    }
}

/// The paths of every unlicensed script that the first `n` of `deps` name.
pub open spec fn dependency_files(deps: Seq<Blocking>, n: nat) -> Seq<Seq<char>>
    decreases deps, n,
{
    if n == 0 || n > deps.len() {
        Seq::empty()
    } else {
        dependency_files(deps, (n - 1) as nat) + blocking_files(deps[n - 1].2)
    }
}

impl UnlicensedPackageReason {
    /// Appends to `out` the paths of every unlicensed script that the reason
    /// names.
    pub fn collect_unlicensed_files(&self, out: &mut Vec<String>)
        ensures
            strings_of(final(out)@) == strings_of(old(out)@) + blocking_files(self@),
        decreases self,
    {
        match self {
            UnlicensedPackageReason::UnlicensedScripts(paths) => {
                let mut i: usize = 0;
                assert(strings_of(paths@).take(0) == Seq::<Seq<char>>::empty());
                assert(strings_of(out@) + Seq::<Seq<char>>::empty() == strings_of(out@));
                while i < paths.len()
                    invariant
                        i <= paths.len(),
                        strings_of(out@) == strings_of(old(out)@) + strings_of(paths@).take(
                            i as int,
                        ),
                    decreases paths.len() - i,
                {
                    let ghost before = strings_of(out@);
                    out.push(paths[i].clone());
                    assert(strings_of(out@) == before.push(paths@[i as int]@));
                    i = i + 1;
                    assert(strings_of(paths@).take(i as int) == strings_of(paths@).take(
                        i - 1,
                    ).push(strings_of(paths@)[i - 1]));
                }
                assert(strings_of(paths@).take(paths.len() as int) == strings_of(paths@));
            },
            UnlicensedPackageReason::UnlicensedDependencies(deps) => {
                let ghost views = self@->Dependencies_0;
                let mut i: usize = 0;
                proof {
                    lemma_entries_view(deps@, deps@.len());
                }
                assert(strings_of(out@) + Seq::<Seq<char>>::empty() == strings_of(out@));
                while i < deps.len()
                    invariant
                        i <= deps.len(),
                        *self == UnlicensedPackageReason::UnlicensedDependencies(*deps),
                        views == self@->Dependencies_0,
                        views.len() == deps@.len(),
                        strings_of(out@) == strings_of(old(out)@) + dependency_files(
                            views,
                            i as nat,
                        ),
                    decreases deps.len() - i,
                {
                    let ghost before = strings_of(out@);
                    proof {
                        lemma_entries_view(deps@, deps@.len());
                    }
                    assert(views[i as int].2 == deps@[i as int].2@);
                    deps[i].2.collect_unlicensed_files(out);
                    assert(strings_of(out@) == strings_of(old(out)@) + (dependency_files(
                        views,
                        i as nat,
                    ) + blocking_files(views[i as int].2)));
                    i = i + 1;
                }
            },
        }
    }

    /// The paths of every unlicensed script that the reason names.
    pub fn unlicensed_files(&self) -> (r: Vec<String>)
        ensures
            strings_of(r@) == blocking_files(self@),
    {
        let mut out: Vec<String> = Vec::new();
        assert(strings_of(out@) == Seq::<Seq<char>>::empty());
        self.collect_unlicensed_files(&mut out);
        assert(Seq::<Seq<char>>::empty() + blocking_files(self@) == blocking_files(self@));
        out
    }
}

/// The license state of a whole package.
#[derive(Debug, Hash, PartialEq, Eq, PartialOrd, Ord)]
pub enum PackageLicense {
    /// Every script and every dependency is licensed: the licenses found.
    Licensed(Vec<String>),
    /// The package is not licensed, and why.
    Unlicensed(UnlicensedPackageReason),
}

/// What a `PackageLicense` holds.
pub enum PackageLicenseView {
    Licensed(Seq<Seq<char>>),
    Unlicensed(ReasonView),
}

impl View for PackageLicense {
    type V = PackageLicenseView;

    open spec fn view(&self) -> PackageLicenseView {
        match self {
            PackageLicense::Licensed(names) => PackageLicenseView::Licensed(strings_of(names@)),
            PackageLicense::Unlicensed(reason) => PackageLicenseView::Unlicensed(reason@),
        }
    }
}

/// Whether verdict `a` is ordered before verdict `b`: licenses by name, all
/// of them before `Unlicensed`.
pub open spec fn verdict_lt(a: ScriptLicenseView, b: ScriptLicenseView) -> bool {
    match (a, b) {
        (ScriptLicenseView::Licensed(x), ScriptLicenseView::Licensed(y)) => seq_lt(x, y),
        (ScriptLicenseView::Licensed(_), ScriptLicenseView::Unlicensed) => true,
        _ => false,
    }
}

/// The order of verdicts is transitive.
pub proof fn lemma_verdict_lt_transitive(
    a: ScriptLicenseView,
    b: ScriptLicenseView,
    c: ScriptLicenseView,
)
    requires
        verdict_lt(a, b),
        verdict_lt(b, c),
    ensures
        verdict_lt(a, c),
{
    match (a, b, c) {
        (
            ScriptLicenseView::Licensed(x),
            ScriptLicenseView::Licensed(y),
            ScriptLicenseView::Licensed(z),
        ) => {
            lemma_seq_lt_transitive(x, y, z);
        },
        _ => {},
    }
}

/// Of two different verdicts one is ordered before the other, and no verdict
/// before itself.
pub proof fn lemma_verdict_lt_total(a: ScriptLicenseView, b: ScriptLicenseView)
    ensures
        a == b || verdict_lt(a, b) || verdict_lt(b, a),
        !verdict_lt(a, a),
{
    match (a, b) {
        (ScriptLicenseView::Licensed(x), ScriptLicenseView::Licensed(y)) => {
            lemma_seq_lt_total(x, y);
        },
        _ => {},
    }
    match a {
        ScriptLicenseView::Licensed(x) => {
            lemma_seq_lt_irreflexive(x);
        },
        _ => {},
    }
}

/// Whether verdict `a` is ordered before verdict `b`.
fn verdict_less(a: &ScriptLicense, b: &ScriptLicense) -> (r: bool)
    ensures
        r == verdict_lt(a@, b@),
{
    match a {
        ScriptLicense::Licensed(x) => match b {
            ScriptLicense::Licensed(y) => {
                let xs = chars_of(x.as_str());
                let ys = chars_of(y.as_str());
                chars_lt(&xs, &ys)
            },
            ScriptLicense::Unlicensed => true,
        },
        ScriptLicense::Unlicensed => false,
    }
}

/// Whether two verdicts are the same.
fn verdict_same(a: &ScriptLicense, b: &ScriptLicense) -> (r: bool)
    ensures
        r == (a@ == b@),
{
    match a {
        ScriptLicense::Licensed(x) => match b {
            ScriptLicense::Licensed(y) => str_eq(x.as_str(), y.as_str()),
            ScriptLicense::Unlicensed => false,
        },
        ScriptLicense::Unlicensed => match b {
            ScriptLicense::Licensed(_) => false,
            ScriptLicense::Unlicensed => true,
        },
    }
}

/// One verdict and the paths of the scripts that received it.
pub type VerdictFiles = (ScriptLicenseView, Seq<Seq<char>>);

/// The scripts of a package, grouped by what was found of their license.
/// Each verdict that was found stands once, with the paths of its scripts in
/// the order in which they were recorded. Verdicts are kept in their order.
#[derive(Debug, Clone, PartialEq, Eq)]
pub struct ScriptLicenses {
    pub entries: Vec<(ScriptLicense, Vec<String>)>,
}

impl View for ScriptLicenses {
    type V = Seq<VerdictFiles>;

    open spec fn view(&self) -> Seq<VerdictFiles> {
        self.entries@.map_values(|e: (ScriptLicense, Vec<String>)| (e.0@, strings_of(e.1@)))
    }
}

/// Whether the verdicts of `map` stand in strictly ascending order.
pub open spec fn sorted(map: Seq<VerdictFiles>) -> bool {
    forall|j: int, k: int| 0 <= j < k < map.len() ==> verdict_lt(#[trigger] map[j].0, #[trigger] map[k].0)
}

/// The position of `v` in `map`: that of the first verdict that is not
/// ordered before `v`.
pub open spec fn place_of(map: Seq<VerdictFiles>, v: ScriptLicenseView) -> int {
    first_index(map.len() as int, |k: int| !verdict_lt(map[k].0, v))
}

/// Whether `map` holds verdict `v`.
pub open spec fn has_verdict(map: Seq<VerdictFiles>, v: ScriptLicenseView) -> bool {
    let i = place_of(map, v);
    0 <= i < map.len() && map[i].0 == v
}

/// The paths that `map` holds under verdict `v`; none where it does not hold
/// the verdict.
pub open spec fn files_under(map: Seq<VerdictFiles>, v: ScriptLicenseView) -> Seq<Seq<char>> {
    if has_verdict(map, v) {
        map[place_of(map, v)].1
    } else {
        Seq::empty()
    }
}

/// `map` with `path` recorded under verdict `v`: appended to the paths of `v`
/// where `map` holds the verdict, else as the only path of a new entry at the
/// verdict's position.
pub open spec fn recorded(map: Seq<VerdictFiles>, v: ScriptLicenseView, path: Seq<char>) -> Seq<
    VerdictFiles,
> {
    let i = place_of(map, v);
    if has_verdict(map, v) {
        map.update(i, (v, map[i].1.push(path)))
    } else {
        map.insert(i, (v, seq![path]))
    }
}

/// In an ordered map the position of `v` splits the verdicts: those before it
/// are ordered before `v`, and those from it on are `v` or ordered after `v`.
pub proof fn lemma_place_of(map: Seq<VerdictFiles>, v: ScriptLicenseView)
    requires
        sorted(map),
    ensures
        0 <= place_of(map, v) <= map.len(),
        forall|k: int| 0 <= k < place_of(map, v) ==> verdict_lt(#[trigger] map[k].0, v),
        forall|k: int|
            place_of(map, v) <= k < map.len() ==> (#[trigger] map[k].0 == v || verdict_lt(
                v,
                map[k].0,
            )),
        forall|k: int|
            place_of(map, v) < k < map.len() ==> verdict_lt(v, #[trigger] map[k].0),
{
    let p = |k: int| !verdict_lt(map[k].0, v);
    lemma_first_index(map.len() as int, p);
    let i = place_of(map, v);
    assert forall|k: int| 0 <= k < i implies verdict_lt(#[trigger] map[k].0, v) by {
        assert(!p(k));
    }
    if i < map.len() {
        assert(p(i));
        lemma_verdict_lt_total(map[i].0, v);
        assert forall|k: int| i < k < map.len() implies verdict_lt(v, #[trigger] map[k].0) by {
            assert(verdict_lt(map[i].0, map[k].0));
            if map[i].0 != v {
                lemma_verdict_lt_transitive(v, map[i].0, map[k].0);
            }
        }
    }
}

/// Recording keeps the map ordered.
pub proof fn lemma_recorded_sorted(map: Seq<VerdictFiles>, v: ScriptLicenseView, path: Seq<char>)
    requires
        sorted(map),
    ensures
        sorted(recorded(map, v, path)),
{
    lemma_place_of(map, v);
    let i = place_of(map, v);
    let next = recorded(map, v, path);
    if has_verdict(map, v) {
        assert forall|j: int, k: int| 0 <= j < k < next.len() implies verdict_lt(
            #[trigger] next[j].0,
            #[trigger] next[k].0,
        ) by {
            assert(next[j].0 == map[j].0);
            assert(next[k].0 == map[k].0);
        }
    } else {
        assert forall|j: int, k: int| 0 <= j < k < next.len() implies verdict_lt(
            #[trigger] next[j].0,
            #[trigger] next[k].0,
        ) by {
            if k < i {
                assert(next[j] == map[j] && next[k] == map[k]);
            } else if k == i {
                assert(next[j] == map[j]);
            } else if j < i {
                assert(next[j] == map[j] && next[k] == map[k - 1]);
            } else if j == i {
                assert(next[k] == map[k - 1]);
            } else {
                assert(next[j] == map[j - 1] && next[k] == map[k - 1]);
            }
        }
    }
}

/// In an ordered map, a verdict found at position `i` has `i` as its
/// position.
pub proof fn lemma_place_is(map: Seq<VerdictFiles>, v: ScriptLicenseView, i: int)
    requires
        sorted(map),
        0 <= i < map.len(),
        map[i].0 == v,
    ensures
        place_of(map, v) == i,
{
    let p = |k: int| !verdict_lt(map[k].0, v);
    lemma_verdict_lt_total(v, v);
    assert(p(i));
    assert forall|k: int| 0 <= k < i implies !(#[trigger] p(k)) by {
        assert(verdict_lt(map[k].0, map[i].0));
    }
    lemma_first_index_is(map.len() as int, p, i);
}

/// Recording appends `path` to the paths under `v` and leaves the paths
/// under every other verdict as they were.
pub proof fn lemma_recorded_files(
    map: Seq<VerdictFiles>,
    v: ScriptLicenseView,
    path: Seq<char>,
    w: ScriptLicenseView,
)
    requires
        sorted(map),
    ensures
        files_under(recorded(map, v, path), w) == if w == v {
            files_under(map, v).push(path)
        } else {
            files_under(map, w)
        },
{
    lemma_place_of(map, v);
    lemma_place_of(map, w);
    lemma_recorded_sorted(map, v, path);
    let i = place_of(map, v);
    let next = recorded(map, v, path);
    lemma_place_of(next, w);
    lemma_verdict_lt_total(v, w);
    lemma_verdict_lt_total(w, w);
    lemma_verdict_lt_total(v, v);
    if w == v {
        assert(next[i].0 == v);
        lemma_place_is(next, v, i);
        if !has_verdict(map, v) {
            assert(Seq::<Seq<char>>::empty().push(path) == seq![path]);
        }
    } else {
        let iw = place_of(map, w);
        if has_verdict(map, w) {
            // `w` keeps its entry, possibly moved by one place.
            if has_verdict(map, v) {
                assert(next[iw] == map[iw]);
                lemma_place_is(next, w, iw);
            } else if iw < i {
                assert(next[iw] == map[iw]);
                lemma_place_is(next, w, iw);
            } else {
                assert(next[iw + 1] == map[iw]);
                lemma_place_is(next, w, iw + 1);
            }
        } else {
            // `w` is in neither map.
            let jw = place_of(next, w);
            if jw < next.len() && next[jw].0 == w {
                if has_verdict(map, v) {
                    assert(next[jw].0 == map[jw].0);
                    lemma_place_is(map, w, jw);
                } else if jw < i {
                    assert(next[jw] == map[jw]);
                    lemma_place_is(map, w, jw);
                } else if jw > i {
                    assert(next[jw] == map[jw - 1]);
                    lemma_place_is(map, w, jw - 1);
                }
            }
        }
    }
}

impl ScriptLicenses {
    /// A map that holds no verdict.
    pub fn new() -> (r: Self)
        ensures
            r@ == Seq::<VerdictFiles>::empty(),
    {
        let r = Self { entries: Vec::new() };
        assert(r@ =~= Seq::<VerdictFiles>::empty());
        r
    }

    /// The number of verdicts held.
    pub fn len(&self) -> (r: usize)
        ensures
            r == self@.len(),
    {
        self.entries.len()
    }

    /// The position of `license`: the first entry whose verdict is not
    /// ordered before it.
    fn place(&self, license: &ScriptLicense) -> (i: usize)
        ensures
            i == place_of(self@, license@),
            i <= self.entries@.len(),
    {
        let ghost p = |k: int| !verdict_lt(self@[k].0, license@);
        let mut i: usize = 0;
        while i < self.entries.len()
            invariant
                i <= self.entries.len(),
                p == (|k: int| !verdict_lt(self@[k].0, license@)),
                forall|k: int| 0 <= k < i ==> !(#[trigger] p(k)),
            decreases self.entries.len() - i,
        {
            assert(self@[i as int].0 == self.entries@[i as int].0@);
            if !verdict_less(&self.entries[i].0, license) {
                proof {
                    assert(p(i as int));
                    lemma_first_index_is(self@.len() as int, p, i as int);
                }
                return i;
            }
            assert(!p(i as int));
            i = i + 1;
        }
        proof {
            lemma_first_index_is(self@.len() as int, p, self@.len() as int);
        }
        i
    }

    /// Whether a script received the verdict `license`.
    pub fn contains_key(&self, license: &ScriptLicense) -> (r: bool)
        ensures
            r == has_verdict(self@, license@),
    {
        let i = self.place(license);
        if i < self.entries.len() {
            assert(self@[i as int].0 == self.entries@[i as int].0@);
            verdict_same(&self.entries[i].0, license)
        } else {
            false
        }
    }

    /// The paths of the scripts that received the verdict `license`, where
    /// there is one.
    pub fn get(&self, license: &ScriptLicense) -> (r: Option<&Vec<String>>)
        ensures
            r is Some == has_verdict(self@, license@),
            r matches Some(paths) ==> strings_of(paths@) == files_under(self@, license@),
    {
        let i = self.place(license);
        if i < self.entries.len() {
            assert(self@[i as int] == (self.entries@[i as int].0@, strings_of(self.entries@[i as int].1@)));
            if verdict_same(&self.entries[i].0, license) {
                return Some(&self.entries[i].1);
            }
        }
        None
    }

    /// Records `path` under the verdict `license`.
    pub fn record(&mut self, license: ScriptLicense, path: String)
        ensures
            final(self)@ == recorded(old(self)@, license@, path@),
    {
        let i = self.place(&license);
        let ghost before = self@;
        let mut found = false;
        if i < self.entries.len() {
            assert(self@[i as int] == (self.entries@[i as int].0@, strings_of(self.entries@[i as int].1@)));
            found = verdict_same(&self.entries[i].0, &license);
        }
        if found {
            let (verdict, mut paths) = self.entries.remove(i);
            let ghost old_paths = paths@;
            paths.push(path);
            assert(strings_of(paths@) == strings_of(old_paths).push(path@));
            self.entries.insert(i, (verdict, paths));
            assert(self@ =~= before.update(i as int, (license@, before[i as int].1.push(path@))));
        } else {
            let mut paths: Vec<String> = Vec::new();
            paths.push(path);
            assert(strings_of(paths@) == seq![path@]);
            self.entries.insert(i, (license, paths));
            assert(self@ =~= before.insert(i as int, (license@, seq![path@])));
        }
    }
}


/// The text of one source line without its comment decoration: every `*`,
/// `/` and `\` is taken out, then every `--[[`, then every `--`, and what is
/// left is trimmed.
pub open spec fn comment_text(line: Seq<char>) -> Seq<char> {
    trimmed(without(without(without(without(without(line, "*"@), "/"@), "\\"@), "--[["@), "--"@))
}

/// The text of the line `line` without its comment decoration.
fn comment_chars(line: &Vec<char>) -> (r: Vec<char>)
    ensures
        r@ == comment_text(line@),
{
    let a = remove_all(line, &chars_of("*"));
    let b = remove_all(&a, &chars_of("/"));
    let c = remove_all(&b, &chars_of("\\"));
    let d = remove_all(&c, &chars_of("--[["));
    let e = remove_all(&d, &chars_of("--"));
    trim(&e)
}

/// Strips the comment decoration from one line of source.
pub fn trim_comment_padding(comment: &str) -> (r: String)
    ensures
        r@ == comment_text(comment@),
{
    let line = chars_of(comment);
    let text = comment_chars(&line);
    string_of(&text)
}

/// Whether a stripped line is code: it begins with `local` or with `type`.
pub open spec fn is_code_line(text: Seq<char>) -> bool {
    "local"@.is_prefix_of(text) || "type"@.is_prefix_of(text)
}

/// Whether a stripped line refers to the upstream source.
pub open spec fn is_upstream_note(text: Seq<char>) -> bool {
    contains_seq(lowercase_of(text), "upstream"@)
}

/// Whether a stripped line opens the header: it is not empty and does not
/// refer to the upstream source.
pub open spec fn opens_header(text: Seq<char>) -> bool {
    !is_upstream_note(text) && text.len() > 0
}

/// Whether a stripped line closes the header: it holds `]]` or is code.
pub open spec fn closes_header(text: Seq<char>) -> bool {
    contains_seq(text, "]]"@) || is_code_line(text)
}

/// The lines of `source`, each stripped of its comment decoration.
pub open spec fn comment_lines(source: Seq<char>) -> Seq<Seq<char>> {
    split_on(source, '\n').map_values(|line: Seq<char>| comment_text(line))
}

/// The first of `lines` that is code or opens the header, or their number.
pub open spec fn header_start(lines: Seq<Seq<char>>) -> int {
    first_index(lines.len() as int, |i: int| is_code_line(lines[i]) || opens_header(lines[i]))
}

/// The first of `lines` behind `start` that closes the header, or their
/// number.
pub open spec fn header_end(lines: Seq<Seq<char>>, start: int) -> int {
    start + 1 + first_index(
        lines.len() - start - 1,
        |k: int| closes_header(lines[start + 1 + k]),
    )
}

/// The license header of `source`.
///
/// Leading lines that are empty or refer to the upstream source are passed
/// over. Where the first line that is neither is code, there is no header.
/// Else the header runs from that line up to, and without, the next line that
/// holds `]]` or is code. Its lines are joined by line breaks and the whole
/// is trimmed.
pub open spec fn header_of(source: Seq<char>) -> Seq<char> {
    let lines = comment_lines(source);
    let start = header_start(lines);
    if 0 <= start < lines.len() && !is_code_line(lines[start]) {
        trimmed(join_with(lines.subrange(start, header_end(lines, start)), '\n'))
    } else {
        Seq::empty()
    }
}

/// Whether a stripped line is code.
fn code_line(text: &Vec<char>) -> (r: bool)
    ensures
        r == is_code_line(text@),
{
    starts_with(text, &chars_of("local")) || starts_with(text, &chars_of("type"))
}

/// Whether a stripped line opens the header.
fn header_opener(text: &Vec<char>) -> (r: bool)
    ensures
        r == opens_header(text@),
{
    let line = string_of(text);
    let lower = to_lowercase(line.as_str());
    let upstream = contains(&chars_of(lower.as_str()), &chars_of("upstream"));
    !upstream && text.len() > 0
}

/// Whether a stripped line closes the header.
fn header_closer(text: &Vec<char>) -> (r: bool)
    ensures
        r == closes_header(text@),
{
    contains(text, &chars_of("]]")) || code_line(text)
}

/// Extracts the license header of a script, as far as one can be found. The
/// result is empty where the script has none.
pub fn extract_license_header(source: &str) -> (r: String)
    ensures
        r@ == header_of(source@),
{
    let chars = chars_of(source);
    let raw = split(&chars, '\n');
    let ghost lines = comment_lines(source@);
    let mut cleaned: Vec<Vec<char>> = Vec::new();
    let mut i: usize = 0;
    while i < raw.len()
        invariant
            i <= raw.len(),
            views_of(raw@) == split_on(source@, '\n'),
            lines == comment_lines(source@),
            cleaned@.len() == i,
            forall|k: int| 0 <= k < i ==> (#[trigger] cleaned@[k])@ == lines[k],
        decreases raw.len() - i,
    {
        assert(views_of(raw@)[i as int] == raw@[i as int]@);
        cleaned.push(comment_chars(&raw[i]));
        i = i + 1;
    }
    assert(views_of(cleaned@) =~= lines);
    let ghost opens = |i: int| is_code_line(lines[i]) || opens_header(lines[i]);
    let mut start: usize = 0;
    while start < cleaned.len()
        invariant
            start <= cleaned.len(),
            views_of(cleaned@) == lines,
            lines == comment_lines(source@),
            opens == (|i: int| is_code_line(lines[i]) || opens_header(lines[i])),
            forall|k: int| 0 <= k < start ==> !(#[trigger] opens(k)),
        ensures
            start < cleaned.len() ==> opens(start as int) && !is_code_line(lines[start as int]),
        decreases cleaned.len() - start,
    {
        assert(views_of(cleaned@)[start as int] == cleaned@[start as int]@);
        if code_line(&cleaned[start]) {
            proof {
                assert(opens(start as int));
                lemma_first_index_is(lines.len() as int, opens, start as int);
            }
            return String::new();
        }
        if header_opener(&cleaned[start]) {
            proof {
                assert(opens(start as int));
            }
            break ;
        }
        assert(!opens(start as int));
        start = start + 1;
    }
    proof {
        lemma_first_index_is(lines.len() as int, opens, start as int);
    }
    if start >= cleaned.len() {
        return String::new();
    }
    let ghost closes = |k: int| closes_header(lines[start + 1 + k]);
    let mut end: usize = start + 1;
    while end < cleaned.len()
        invariant
            start < end <= cleaned.len(),
            views_of(cleaned@) == lines,
            closes == (|k: int| closes_header(lines[start + 1 + k])),
            forall|k: int| 0 <= k < end - start - 1 ==> !(#[trigger] closes(k)),
        ensures
            end < cleaned.len() ==> closes(end - start - 1),
        decreases cleaned.len() - end,
    {
        assert(views_of(cleaned@)[end as int] == cleaned@[end as int]@);
        if header_closer(&cleaned[end]) {
            proof {
                assert(closes(end - start - 1));
            }
            break ;
        }
        assert(!closes(end - start - 1));
        end = end + 1;
    }
    proof {
        lemma_first_index_is(lines.len() - start - 1, closes, end - start - 1);
    }
    let mut parts: Vec<Vec<char>> = Vec::new();
    let mut j: usize = start;
    while j < end
        invariant
            start <= j <= end <= cleaned.len(),
            views_of(cleaned@) == lines,
            views_of(parts@) == lines.subrange(start as int, j as int),
        decreases end - j,
    {
        let ghost before = views_of(parts@);
        assert(views_of(cleaned@)[j as int] == cleaned@[j as int]@);
        let line = &cleaned[j];
        let mut copy: Vec<char> = Vec::new();
        let mut k: usize = 0;
        while k < line.len()
            invariant
                k <= line.len(),
                copy@ == line@.take(k as int),
            decreases line.len() - k,
        {
            copy.push(line[k]);
            k = k + 1;
        }
        assert(copy@ == line@);
        parts.push(copy);
        j = j + 1;
        assert(views_of(parts@) =~= before.push(line@));
        assert(lines.subrange(start as int, j as int) =~= lines.subrange(
            start as int,
            j - 1,
        ).push(lines[j - 1]));
    }
    let joined = join(&parts, '\n');
    let header = trim(&joined);
    string_of(&header)
}

/// A license as named by the phrase lists.
#[derive(Debug, Clone, Copy, PartialEq, Eq, PartialOrd, Ord, Structural)]
pub enum License {
    MIT,
    Apache2,
    NoLicense,
}

/// The display name of `license`.
pub open spec fn license_name(license: License) -> Seq<char> {
    match license {
        License::MIT => "MIT"@,
        License::Apache2 => "Apache 2.0"@,
        License::NoLicense => "Unlicensed"@,
    }
}

impl License {
    /// The display name of the license.
    pub fn to_string(&self) -> (r: String)
        ensures
            r@ == license_name(*self),
    {
        match self {
            License::MIT => "MIT".to_owned(),
            License::Apache2 => "Apache 2.0".to_owned(),
            License::NoLicense => "Unlicensed".to_owned(),
        }
    }
}

/// A known license: its name and reference texts of its header.
#[derive(Debug, Clone, PartialEq, Eq)]
pub struct ReferenceLicense {
    pub name: String,
    pub texts: Vec<String>,
}

/// What the classifier is configured with.
#[derive(Debug, Clone, PartialEq, Eq)]
pub struct ClassifierConfig {
    /// Phrases that mark a text as MIT licensed.
    pub mit_phrases: Vec<String>,
    /// Phrases that mark a text as Apache 2.0 licensed.
    pub apache_phrases: Vec<String>,
    /// Paths, written with `/`, whose scripts count as licensed without a
    /// look at their text.
    pub allowed_modules: Vec<String>,
    /// Reference texts against which a header is scored where no phrase
    /// matches.
    pub corpus: Vec<ReferenceLicense>,
}

/// Whether `source` holds one of `phrases`, letter case set aside.
pub open spec fn matches_phrase(source: Seq<char>, phrases: Seq<Seq<char>>) -> bool {
    exists|i: int|
        0 <= i < phrases.len() && contains_seq(
            lowercase_of(source),
            lowercase_of(#[trigger] phrases[i]),
        )
}

/// Whether `source` holds one of the phrases of `license_list`, letter case
/// set aside.
pub fn source_matches_license_list(source: &str, license_list: &Vec<String>) -> (r: bool)
    ensures
        r == matches_phrase(source@, strings_of(license_list@)),
{
    let ghost phrases = strings_of(license_list@);
    let lower = to_lowercase(source);
    let text = chars_of(lower.as_str());
    let mut i: usize = 0;
    while i < license_list.len()
        invariant
            i <= license_list.len(),
            phrases == strings_of(license_list@),
            text@ == lowercase_of(source@),
            forall|k: int|
                0 <= k < i ==> !contains_seq(lowercase_of(source@), lowercase_of(#[trigger] phrases[k])),
        decreases license_list.len() - i,
    {
        assert(phrases[i as int] == license_list@[i as int]@);
        let phrase = to_lowercase(license_list[i].as_str());
        if contains(&text, &chars_of(phrase.as_str())) {
            return true;
        }
        i = i + 1;
    }
    false
}

/// Whether `path`, with every `\` read as `/`, holds one of `allowed`.
pub open spec fn is_allowed_path(path: Seq<char>, allowed: Seq<Seq<char>>) -> bool {
    exists|i: int|
        0 <= i < allowed.len() && contains_seq(replaced_char(path, '\\', '/'), #[trigger] allowed[i])
}

/// Whether the script at `path` is on the allow-list `allowed`.
pub fn is_script_whitelisted(path: &str, allowed: &Vec<String>) -> (r: bool)
    ensures
        r == is_allowed_path(path@, strings_of(allowed@)),
{
    let ghost modules = strings_of(allowed@);
    let text = replace_char(&chars_of(path), '\\', '/');
    let mut i: usize = 0;
    while i < allowed.len()
        invariant
            i <= allowed.len(),
            modules == strings_of(allowed@),
            text@ == replaced_char(path@, '\\', '/'),
            forall|k: int| 0 <= k < i ==> !contains_seq(text@, #[trigger] modules[k]),
        decreases allowed.len() - i,
    {
        assert(modules[i as int] == allowed@[i as int]@);
        if contains(&text, &chars_of(allowed[i].as_str())) {
            return true;
        }
        i = i + 1;
    }
    false
}

/// The license that the phrase lists and the allow-list of `config` give the
/// text `source` found at `path`: MIT where an MIT phrase occurs or the path
/// is allowed, else Apache 2.0 where an Apache phrase occurs, else none.
pub open spec fn inferred_license(source: Seq<char>, path: Seq<char>, config: ClassifierConfig) -> Option<
    License,
> {
    if matches_phrase(source, strings_of(config.mit_phrases@)) || is_allowed_path(
        path,
        strings_of(config.allowed_modules@),
    ) {
        Some(License::MIT)
    } else if matches_phrase(source, strings_of(config.apache_phrases@)) {
        Some(License::Apache2)
    } else {
        None
    }
}

/// Infers the license of a text from the phrase lists and the allow-list.
pub fn infer_script_license(source: &str, path: &str, config: &ClassifierConfig) -> (r: Option<
    License,
>)
    ensures
        r == inferred_license(source@, path@, *config),
{
    if source_matches_license_list(source, &config.mit_phrases) {
        return Some(License::MIT);
    } else {
        if is_script_whitelisted(path, &config.allowed_modules) {
            return Some(License::MIT);
        }
    }
    if source_matches_license_list(source, &config.apache_phrases) {
        return Some(License::Apache2);
    }
    None
}

/// `askalono`'s `TextData::optimize_bounds`, on the `TextData` of `header`
/// against that of `reference`: the score of the best line range of `header`,
/// handed out as the bit pattern of the single-precision number. Both texts
/// keep their normalised lines, which is what the call asks of its receiver.
/// The score is a number from zero to one. Which number it is may differ
/// from call to call on the same texts, because the crate strips common line
/// prefixes that it picks by walking a hash map; the contract says only what
/// holds of every outcome.
#[verifier::external_body]
fn match_score_bits(header: &str, reference: &str) -> (bits: u32)
    ensures
        bits <= HIGHEST_SCORE,
{
    TextData::from(header).optimize_bounds(&TextData::from(reference)).1.to_bits()
}

/// The least score that credits a license, as a bit pattern: nineteen
/// twentieths.
pub const LICENSE_SCORE_THRESHOLD: u32 = 0x3F73_3333;

/// The highest score there is, as a bit pattern: one.
pub const HIGHEST_SCORE: u32 = 0x3F80_0000;

/// Whether the score with pattern `bits` is greater than the score with
/// pattern `floor`, for a `floor` that is not negative. Patterns of scores
/// that are not negative order as the scores do; a pattern beyond that of
/// infinity is no number or negative, and exceeds nothing.
pub open spec fn exceeds(bits: u32, floor: u32) -> bool {
    floor < bits && bits <= 0x7F80_0000
}

/// How well a header matches one reference license: the name of the license
/// and, for each of its reference texts in order, the score as a bit pattern.
#[derive(Debug, Clone, PartialEq, Eq)]
pub struct LicenseScores {
    pub name: String,
    pub scores: Vec<u32>,
}

/// The best match so far: the name of the license, if any text scored above
/// the floor, and the highest score seen, as a bit pattern.
pub type BestMatch = (Option<Seq<char>>, u32);

/// The best match after the first `n` of `scores`, scores of the license
/// `name`: a score takes over where it exceeds the highest so far.
pub open spec fn scored_texts(best: BestMatch, name: Seq<char>, scores: Seq<u32>, n: int) -> BestMatch
    decreases n,
{
    if n <= 0 {
        best
    } else {
        let before = scored_texts(best, name, scores, n - 1);
        let bits = scores[n - 1];
        if exceeds(bits, before.1) {
            (Some(name), bits)
        } else {
            before
        }
    }
}

/// The best match after the first `n` licenses of `scored`.
pub open spec fn scored_corpus(best: BestMatch, scored: Seq<LicenseScores>, n: int) -> BestMatch
    decreases n,
{
    if n <= 0 {
        best
    } else {
        scored_texts(
            scored_corpus(best, scored, n - 1),
            scored[n - 1].name@,
            scored[n - 1].scores@,
            scored[n - 1].scores@.len() as int,
        )
    }
}

/// The verdict that the scores `scored` give: the license of the first text
/// with the highest score, where that score exceeds the threshold;
/// `Unlicensed` where no score does.
pub open spec fn chosen_license(scored: Seq<LicenseScores>) -> ScriptLicenseView {
    match scored_corpus((None, LICENSE_SCORE_THRESHOLD), scored, scored.len() as int).0 {
        Some(name) => ScriptLicenseView::Licensed(name),
        None => ScriptLicenseView::Unlicensed,
    }
}

/// The score at position `t` of the license at position `i` of `scored`.
pub open spec fn score_at(scored: Seq<LicenseScores>, i: int, t: int) -> u32 {
    scored[i].scores@[t]
}

/// Whether the text at `(i, t)` is among those looked at before the text at
/// `(e, n)`, going through the licenses in order and through the texts of
/// each in order.
pub open spec fn looked_at(scored: Seq<LicenseScores>, e: int, n: int, i: int, t: int) -> bool {
    0 <= i < scored.len() && 0 <= t < scored[i].scores@.len() && (i < e || (i == e && t < n))
}

/// Whether `bits` is the pattern of a score: a number that is not negative.
pub open spec fn is_score(bits: u32) -> bool {
    bits <= 0x7F80_0000
}

/// Whether `best` sums up the texts looked at before `(e, n)`. Where no
/// license is named, no text scored above the threshold. Where one is named,
/// it is the license of a text that scored above the threshold, no text
/// scored higher, and no earlier text scored as high.
pub open spec fn is_best(
    best: BestMatch,
    scored: Seq<LicenseScores>,
    e: int,
    n: int,
) -> bool {
    match best.0 {
        None => best.1 == LICENSE_SCORE_THRESHOLD && forall|i: int, t: int|
            looked_at(scored, e, n, i, t) ==> !exceeds(
                #[trigger] score_at(scored, i, t),
                LICENSE_SCORE_THRESHOLD,
            ),
        Some(name) => exists|i: int, t: int|
            {
                &&& looked_at(scored, e, n, i, t)
                &&& scored[i].name@ == name
                &&& #[trigger] score_at(scored, i, t) == best.1
                &&& exceeds(best.1, LICENSE_SCORE_THRESHOLD)
                &&& forall|j: int, u: int|
                    looked_at(scored, e, n, j, u) && is_score(
                        #[trigger] score_at(scored, j, u),
                    ) ==> score_at(scored, j, u) <= best.1
                &&& forall|j: int, u: int|
                    looked_at(scored, e, n, j, u) && (j < i || (j == i && u < t))
                        ==> #[trigger] score_at(scored, j, u) != best.1
            },
    }
}

/// Looking at the scores of one license keeps the best match best.
pub proof fn lemma_scored_texts_best(
    best: BestMatch,
    scored: Seq<LicenseScores>,
    e: int,
    n: int,
)
    requires
        0 <= e < scored.len(),
        0 <= n <= scored[e].scores@.len(),
        is_best(best, scored, e, 0),
    ensures
        is_best(
            scored_texts(best, scored[e].name@, scored[e].scores@, n),
            scored,
            e,
            n,
        ),
    decreases n,
{
    if n > 0 {
        lemma_scored_texts_best(best, scored, e, n - 1);
        let texts = scored[e].scores@;
        let before = scored_texts(best, scored[e].name@, texts, n - 1);
        let after = scored_texts(best, scored[e].name@, texts, n);
        let bits = score_at(scored, e, n - 1);
        assert(bits == texts[n - 1]);
        assert forall|j: int, u: int| looked_at(scored, e, n, j, u) implies looked_at(scored, e,
            n - 1,
            j,
            u,
        ) || (j == e && u == n - 1) by {}
        match before.0 {
            None => {
                if exceeds(bits, before.1) {
                    assert(looked_at(scored, e, n, e, n - 1));
                    assert forall|j: int, u: int|
                        looked_at(scored, e, n, j, u) && is_score(
                            #[trigger] score_at(scored, j, u),
                        ) implies score_at(scored, j, u) <= bits by {
                        if !(j == e && u == n - 1) {
                            assert(!exceeds(score_at(scored, j, u), LICENSE_SCORE_THRESHOLD));
                        }
                    }
                    assert forall|j: int, u: int|
                        looked_at(scored, e, n, j, u) && (j < e || (j == e && u < n - 1)) implies #[trigger] score_at(scored, j,
                        u,
                    ) != bits by {
                        assert(!exceeds(score_at(scored, j, u), LICENSE_SCORE_THRESHOLD));
                    }
                } else {
                    assert forall|i: int, t: int| looked_at(scored, e, n, i, t) implies !exceeds(
                        #[trigger] score_at(scored, i, t),
                        LICENSE_SCORE_THRESHOLD,
                    ) by {}
                }
            },
            Some(name) => {
                let (i, t) = choose|i: int, t: int|
                    {
                        &&& looked_at(scored, e, n - 1, i, t)
                        &&& scored[i].name@ == name
                        &&& #[trigger] score_at(scored, i, t) == before.1
                        &&& exceeds(before.1, LICENSE_SCORE_THRESHOLD)
                        &&& forall|j: int, u: int|
                            looked_at(scored, e, n - 1, j, u) && is_score(
                                #[trigger] score_at(scored, j, u),
                            ) ==> score_at(scored, j, u) <= before.1
                        &&& forall|j: int, u: int|
                            looked_at(scored, e, n - 1, j, u) && (j < i || (j == i && u < t))
                                ==> #[trigger] score_at(scored, j, u) != before.1
                    };
                if exceeds(bits, before.1) {
                    assert(looked_at(scored, e, n, e, n - 1));
                    assert forall|j: int, u: int|
                        looked_at(scored, e, n, j, u) && is_score(
                            #[trigger] score_at(scored, j, u),
                        ) implies score_at(scored, j, u) <= bits by {}
                    assert forall|j: int, u: int|
                        looked_at(scored, e, n, j, u) && (j < e || (j == e && u < n - 1)) implies #[trigger] score_at(scored, j,
                        u,
                    ) != bits by {
                        if score_at(scored, j, u) == bits {
                            assert(is_score(score_at(scored, j, u)));
                        }
                    }
                } else {
                    assert(looked_at(scored, e, n, i, t));
                    assert(score_at(scored, i, t) == after.1);
                    assert forall|j: int, u: int|
                        looked_at(scored, e, n, j, u) && is_score(
                            #[trigger] score_at(scored, j, u),
                        ) implies score_at(scored, j, u) <= after.1 by {}
                    assert forall|j: int, u: int|
                        looked_at(scored, e, n, j, u) && (j < i || (j == i && u < t)) implies #[trigger] score_at(scored, j,
                        u,
                    ) != after.1 by {
                        assert(looked_at(scored, e, n - 1, j, u));
                    }
                }
            },
        }
    }
}

/// Looking at the licenses in order keeps the best match best.
pub proof fn lemma_scored_corpus_best(scored: Seq<LicenseScores>, e: int)
    requires
        0 <= e <= scored.len(),
    ensures
        is_best(
            scored_corpus((None, LICENSE_SCORE_THRESHOLD), scored, e),
            scored,
            e,
            0,
        ),
    decreases e,
{
    if e > 0 {
        lemma_scored_corpus_best(scored, e - 1);
        let before = scored_corpus((None, LICENSE_SCORE_THRESHOLD), scored, e - 1);
        let texts = scored[e - 1].scores@.len() as int;
        lemma_scored_texts_best(before, scored, e - 1, texts);
        let after = scored_corpus((None, LICENSE_SCORE_THRESHOLD), scored, e);
        assert forall|j: int, u: int| looked_at(scored, e, 0, j, u) == looked_at(scored, e - 1,
            texts,
            j,
            u,
        ) by {}
        match after.0 {
            None => {},
            Some(name) => {
                let (i, t) = choose|i: int, t: int|
                    {
                        &&& looked_at(scored, e - 1, texts, i, t)
                        &&& scored[i].name@ == name
                        &&& #[trigger] score_at(scored, i, t) == after.1
                        &&& exceeds(after.1, LICENSE_SCORE_THRESHOLD)
                        &&& forall|j: int, u: int|
                            looked_at(scored, e - 1, texts, j, u) && is_score(
                                #[trigger] score_at(scored, j, u),
                            ) ==> score_at(scored, j, u) <= after.1
                        &&& forall|j: int, u: int|
                            looked_at(scored, e - 1, texts, j, u) && (j < i || (j == i && u < t))
                                ==> #[trigger] score_at(scored, j, u) != after.1
                    };
                assert(looked_at(scored, e, 0, i, t));
            },
        }
    }
}

/// Scores credit nothing that they do not carry: the verdict is
/// `Unlicensed` exactly where no score is above the threshold, and a license
/// that is named is that of the first text with the highest score.
pub proof fn lemma_chosen_is_best(scored: Seq<LicenseScores>)
    ensures
        is_best(
            scored_corpus((None, LICENSE_SCORE_THRESHOLD), scored, scored.len() as int),
            scored,
            scored.len() as int,
            0,
        ),
        chosen_license(scored) matches ScriptLicenseView::Licensed(name) ==> scored_corpus((None, LICENSE_SCORE_THRESHOLD), scored, scored.len() as int).0 == Some(name),
        chosen_license(scored) is Unlicensed <==> forall|i: int, t: int|
            0 <= i < scored.len() && 0 <= t < scored[i].scores@.len() ==> !exceeds(
                #[trigger] score_at(scored, i, t),
                LICENSE_SCORE_THRESHOLD,
            ),
{
    lemma_scored_corpus_best(scored, scored.len() as int);
    let best = scored_corpus((None, LICENSE_SCORE_THRESHOLD), scored, scored.len() as int);
    assert forall|i: int, t: int|
        0 <= i < scored.len() && 0 <= t < scored[i].scores@.len() implies looked_at(scored, scored.len() as int,
        0,
        i,
        t,
    ) by {}
    match best.0 {
        None => {
            assert forall|i: int, t: int|
                0 <= i < scored.len() && 0 <= t < scored[i].scores@.len() implies !exceeds(
                #[trigger] score_at(scored, i, t),
                LICENSE_SCORE_THRESHOLD,
            ) by {
                assert(looked_at(scored, scored.len() as int, 0, i, t));
            }
        },
        Some(name) => {
            let (i, t) = choose|i: int, t: int|
                {
                    &&& looked_at(scored, scored.len() as int, 0, i, t)
                    &&& scored[i].name@ == name
                    &&& #[trigger] score_at(scored, i, t) == best.1
                    &&& exceeds(best.1, LICENSE_SCORE_THRESHOLD)
                    &&& forall|j: int, u: int|
                        looked_at(scored, scored.len() as int, 0, j, u) && is_score(
                            #[trigger] score_at(scored, j, u),
                        ) ==> score_at(scored, j, u) <= best.1
                    &&& forall|j: int, u: int|
                        looked_at(scored, scored.len() as int, 0, j, u) && (j < i || (j == i && u
                            < t)) ==> #[trigger] score_at(scored, j, u) != best.1
                };
            assert(exceeds(score_at(scored, i, t), LICENSE_SCORE_THRESHOLD));
        },
    }
}

/// The view of a best match held as a verdict.
pub open spec fn best_of(top: ScriptLicense) -> Option<Seq<char>> {
    match top {
        ScriptLicense::Licensed(name) => Some(name@),
        ScriptLicense::Unlicensed => None,
    }
}

/// Chooses the license that scores credit: that of the first text with the
/// highest score above the threshold, or none where no score is above it.
pub fn choose_license(scored: &Vec<LicenseScores>) -> (r: ScriptLicense)
    ensures
        r@ == chosen_license(scored@),
{
    let ghost start: BestMatch = (None, LICENSE_SCORE_THRESHOLD);
    let mut top_license = ScriptLicense::Unlicensed;
    let mut highest_score: u32 = LICENSE_SCORE_THRESHOLD;
    let mut e: usize = 0;
    while e < scored.len()
        invariant
            e <= scored.len(),
            start == (None::<Seq<char>>, LICENSE_SCORE_THRESHOLD),
            (best_of(top_license), highest_score) == scored_corpus(start, scored@, e as int),
        decreases scored.len() - e,
    {
        let license = &scored[e];
        let ghost before = scored_corpus(start, scored@, e as int);
        let mut t: usize = 0;
        while t < license.scores.len()
            invariant
                t <= license.scores.len(),
                (best_of(top_license), highest_score) == scored_texts(
                    before,
                    license.name@,
                    license.scores@,
                    t as int,
                ),
            decreases license.scores.len() - t,
        {
            let score = license.scores[t];
            if score > highest_score && score <= 0x7F80_0000 {
                top_license = ScriptLicense::Licensed(license.name.clone());
                highest_score = score;
            }
            t = t + 1;
        }
        e = e + 1;
    }
    top_license
}

/// Whether `scored` holds scores for `corpus`: for each license its name
/// and one score, from zero to one, for each of its texts.
pub open spec fn scores_fit(corpus: Seq<ReferenceLicense>, scored: Seq<LicenseScores>) -> bool {
    &&& scored.len() == corpus.len()
    &&& forall|i: int|
        0 <= i < scored.len() ==> {
            &&& (#[trigger] scored[i]).name@ == corpus[i].name@
            &&& scored[i].scores@.len() == corpus[i].texts@.len()
        }
    &&& forall|i: int, t: int|
        0 <= i < scored.len() && 0 <= t < scored[i].scores@.len() ==> #[trigger] score_at(
            scored,
            i,
            t,
        ) <= HIGHEST_SCORE
}

/// Whether `verdict` is a verdict that the texts of `corpus` can give a
/// header: the one chosen for some scores of the corpus.
pub open spec fn is_corpus_verdict(corpus: Seq<ReferenceLicense>, verdict: ScriptLicenseView) -> bool {
    exists|scored: Seq<LicenseScores>|
        #[trigger] scores_fit(corpus, scored) && verdict == chosen_license(scored)
}

/// Whether no license of `corpus` has a reference text.
pub open spec fn without_texts(corpus: Seq<ReferenceLicense>) -> bool {
    forall|i: int| 0 <= i < corpus.len() ==> (#[trigger] corpus[i]).texts@.len() == 0
}

/// Whether a license of `corpus` that has a reference text is called `name`.
pub open spec fn names_license(corpus: Seq<ReferenceLicense>, name: Seq<char>) -> bool {
    exists|i: int|
        0 <= i < corpus.len() && (#[trigger] corpus[i]).name@ == name && corpus[i].texts@.len() > 0
}

/// Whatever the scores are, a corpus credits only its own licenses, and a
/// corpus without texts credits none.
pub proof fn lemma_corpus_verdict(corpus: Seq<ReferenceLicense>, verdict: ScriptLicenseView)
    requires
        is_corpus_verdict(corpus, verdict),
    ensures
        without_texts(corpus) ==> verdict is Unlicensed,
        verdict matches ScriptLicenseView::Licensed(name) ==> names_license(corpus, name),
{
    let scored = choose|scored: Seq<LicenseScores>|
        #[trigger] scores_fit(corpus, scored) && verdict == chosen_license(scored);
    lemma_chosen_is_best(scored);
    let best = scored_corpus((None, LICENSE_SCORE_THRESHOLD), scored, scored.len() as int);
    match best.0 {
        None => {},
        Some(name) => {
            let (i, t) = choose|i: int, t: int|
                {
                    &&& looked_at(scored, scored.len() as int, 0, i, t)
                    &&& scored[i].name@ == name
                    &&& #[trigger] score_at(scored, i, t) == best.1
                    &&& exceeds(best.1, LICENSE_SCORE_THRESHOLD)
                    &&& forall|j: int, u: int|
                        looked_at(scored, scored.len() as int, 0, j, u) && is_score(
                            #[trigger] score_at(scored, j, u),
                        ) ==> score_at(scored, j, u) <= best.1
                    &&& forall|j: int, u: int|
                        looked_at(scored, scored.len() as int, 0, j, u) && (j < i || (j == i && u
                            < t)) ==> #[trigger] score_at(scored, j, u) != best.1
                };
            assert(scored[i].name@ == corpus[i].name@);
            assert(corpus[i].texts@.len() > 0);
        },
    }
}

/// Scores a license header against the reference texts of `corpus` and
/// chooses the license that the scores credit. The scores come from outside
/// and are not the same on every call; whatever they are, the verdict is one
/// that the corpus can give.
pub fn compute_header_license(license_header: &str, corpus: &Vec<ReferenceLicense>) -> (r:
    ScriptLicense)
    ensures
        is_corpus_verdict(corpus@, r@),
        without_texts(corpus@) ==> r@ is Unlicensed,
        r@ matches ScriptLicenseView::Licensed(name) ==> names_license(corpus@, name),
{
    let mut scored: Vec<LicenseScores> = Vec::new();
    let mut e: usize = 0;
    while e < corpus.len()
        invariant
            e <= corpus.len(),
            scores_fit(corpus@.take(e as int), scored@),
        decreases corpus.len() - e,
    {
        let license = &corpus[e];
        let mut scores: Vec<u32> = Vec::new();
        let mut t: usize = 0;
        while t < license.texts.len()
            invariant
                t <= license.texts.len(),
                scores@.len() == t,
                forall|k: int| 0 <= k < t ==> #[trigger] scores@[k] <= HIGHEST_SCORE,
            decreases license.texts.len() - t,
        {
            let score = match_score_bits(license_header, license.texts[t].as_str());
            scores.push(score);
            t = t + 1;
        }
        let ghost before = scored@;
        scored.push(LicenseScores { name: license.name.clone(), scores });
        proof {
            let fitted = corpus@.take(e + 1);
            assert forall|i: int| 0 <= i < scored@.len() implies {
                &&& (#[trigger] scored@[i]).name@ == fitted[i].name@
                &&& scored@[i].scores@.len() == fitted[i].texts@.len()
            } by {
                if i < e {
                    assert(scored@[i] == before[i]);
                    assert(fitted[i] == corpus@.take(e as int)[i]);
                }
            }
            assert forall|i: int, k: int|
                0 <= i < scored@.len() && 0 <= k < scored@[i].scores@.len() implies #[trigger] score_at(
                scored@,
                i,
                k,
            ) <= HIGHEST_SCORE by {
                if i < e {
                    assert(scored@[i] == before[i]);
                    assert(score_at(before, i, k) <= HIGHEST_SCORE);
                }
            }
        }
        e = e + 1;
    }
    assert(corpus@.take(corpus.len() as int) == corpus@);
    let r = choose_license(&scored);
    proof {
        assert(scores_fit(corpus@, scored@));
        assert(is_corpus_verdict(corpus@, r@));
        lemma_corpus_verdict(corpus@, r@);
    }
    r
}

/// The verdict for the script `source` found at `path` under `config`, as
/// far as it is settled without a look at the reference texts.
///
/// A script on the allow-list is licensed, whatever it holds. Else a script
/// without a license header is unlicensed. Else a header that holds a phrase
/// is credited the license of the phrase. For any other header the
/// reference texts decide, and nothing is settled.
pub open spec fn settled(source: Seq<char>, path: Seq<char>, config: ClassifierConfig) -> Option<
    ScriptLicenseView,
> {
    if is_allowed_path(path, strings_of(config.allowed_modules@)) {
        Some(ScriptLicenseView::Licensed(license_name(License::MIT)))
    } else {
        let header = header_of(source);
        if header.len() == 0 {
            Some(ScriptLicenseView::Unlicensed)
        } else {
            match inferred_license(header, path, config) {
                Some(license) => Some(ScriptLicenseView::Licensed(license_name(license))),
                None => None,
            }
        }
    }
}

/// Whether `verdict` is a verdict for the script `source` found at `path`
/// under `config`: the settled one where there is one, else one that the
/// reference texts can give.
pub open spec fn is_verdict(
    source: Seq<char>,
    path: Seq<char>,
    config: ClassifierConfig,
    verdict: ScriptLicenseView,
) -> bool {
    match settled(source, path, config) {
        Some(found) => verdict == found,
        None => is_corpus_verdict(config.corpus@, verdict),
    }
}

/// Classifies one script.
pub fn classify(source: &str, path: &str, config: &ClassifierConfig) -> (r: ScriptLicense)
    ensures
        is_verdict(source@, path@, *config, r@),
{
    if is_script_whitelisted(path, &config.allowed_modules) {
        return ScriptLicense::Licensed(License::MIT.to_string());
    }
    let header = extract_license_header(source);
    if header.as_str().is_empty() {
        return ScriptLicense::Unlicensed;
    }
    match infer_script_license(header.as_str(), path, config) {
        Some(license) => ScriptLicense::Licensed(license.to_string()),
        None => compute_header_license(header.as_str(), &config.corpus),
    }
}

/// One script as read from disk: its path, written with `/`, and its text.
#[derive(Debug, Clone, PartialEq, Eq)]
pub struct ScriptFile {
    pub path: String,
    pub source: String,
}

/// The extension of the file that `path` names: what follows the last `.` of
/// its last component. A component without a `.`, one whose only `.` stands
/// in front, and `..` have none.
pub open spec fn extension_of(path: Seq<char>) -> Option<Seq<char>> {
    let name = split_on(path, '/').last();
    let pieces = split_on(name, '.');
    if pieces.len() < 2 || (pieces.len() == 2 && pieces[0].len() == 0) || name == ".."@ {
        None
    } else {
        Some(pieces.last())
    }
}

/// Whether the file at `path` is looked at: it has the extension `lua` or
/// `luau`, or none at all.
pub open spec fn is_script_path(path: Seq<char>) -> bool {
    match extension_of(path) {
        None => true,
        Some(extension) => extension == "lua"@ || extension == "luau"@,
    }
}

/// Whether the file at `path` is looked at.
pub fn has_script_extension(path: &str) -> (r: bool)
    ensures
        r == is_script_path(path@),
{
    let chars = chars_of(path);
    let components = split(&chars, '/');
    let name = &components[components.len() - 1];
    assert(views_of(components@).last() == name@);
    let pieces = split(name, '.');
    proof {
        assert forall|k: int| 0 <= k < pieces@.len() implies #[trigger] views_of(pieces@)[k]
            == pieces@[k]@ by {}
    }
    if pieces.len() < 2 || (pieces.len() == 2 && pieces[0].len() == 0) || chars_eq(
        name,
        &chars_of(".."),
    ) {
        return true;
    }
    let extension = &pieces[pieces.len() - 1];
    chars_eq(extension, &chars_of("lua")) || chars_eq(extension, &chars_of("luau"))
}

/// The path of a script with the verdict that was found for it.
pub type FoundVerdict = (Seq<char>, ScriptLicenseView);

/// The views of the paths and verdicts held by `found`.
pub open spec fn found_view(found: Seq<(String, ScriptLicense)>) -> Seq<FoundVerdict> {
    found.map_values(|f: (String, ScriptLicense)| (f.0@, f.1@))
}

/// The paths of `found`, each recorded under the verdict that stands with
/// it, in the order of `found`.
pub open spec fn grouped(found: Seq<FoundVerdict>) -> Seq<VerdictFiles>
    decreases found.len(),
{
    if found.len() == 0 {
        Seq::empty()
    } else {
        recorded(grouped(found.drop_last()), found.last().1, found.last().0)
    }
}

/// What is grouped stands in the order of the verdicts.
pub proof fn lemma_grouped_sorted(found: Seq<FoundVerdict>)
    ensures
        sorted(grouped(found)),
    decreases found.len(),
{
    if found.len() > 0 {
        lemma_grouped_sorted(found.drop_last());
        lemma_recorded_sorted(grouped(found.drop_last()), found.last().1, found.last().0);
    }
}

/// A copy of `license`.
fn copy_verdict(license: &ScriptLicense) -> (r: ScriptLicense)
    ensures
        r@ == license@,
{
    match license {
        ScriptLicense::Licensed(name) => ScriptLicense::Licensed(name.clone()),
        ScriptLicense::Unlicensed => ScriptLicense::Unlicensed,
    }
}

/// Gathers the paths of `found` by the verdict that was found for each.
pub fn group_by_verdict(found: &Vec<(String, ScriptLicense)>) -> (r: ScriptLicenses)
    ensures
        r@ == grouped(found_view(found@)),
        sorted(r@),
{
    let ghost all = found_view(found@);
    let mut licenses = ScriptLicenses::new();
    let mut n: usize = 0;
    assert(all.take(0) == Seq::<FoundVerdict>::empty());
    while n < found.len()
        invariant
            n <= found.len(),
            all == found_view(found@),
            licenses@ == grouped(all.take(n as int)),
        decreases found.len() - n,
    {
        proof {
            assert(all.take(n + 1).drop_last() == all.take(n as int));
            assert(all.take(n + 1).last() == (found@[n as int].0@, found@[n as int].1@));
        }
        licenses.record(copy_verdict(&found[n].1), found[n].0.clone());
        n = n + 1;
    }
    proof {
        assert(all.take(found.len() as int) == all);
        lemma_grouped_sorted(all);
    }
    licenses
}

/// Whether `found` holds, in the order of `files`, the path of each file
/// that is looked at, with a verdict for it under `config`.
pub open spec fn found_in(files: Seq<ScriptFile>, config: ClassifierConfig, found: Seq<FoundVerdict>) -> bool
    decreases files.len(),
{
    if files.len() == 0 {
        found.len() == 0
    } else if is_script_path(files.last().path@) {
        &&& found.len() > 0
        &&& found.last().0 == files.last().path@
        &&& is_verdict(files.last().source@, files.last().path@, config, found.last().1)
        &&& found_in(files.drop_last(), config, found.drop_last())
    } else {
        found_in(files.drop_last(), config, found)
    }
}

/// Whether `map` is what classifying `files` under `config` can give: the
/// paths of the files that are looked at, grouped by a verdict for each.
pub open spec fn is_license_information(
    files: Seq<ScriptFile>,
    config: ClassifierConfig,
    map: Seq<VerdictFiles>,
) -> bool {
    exists|found: Seq<FoundVerdict>| #[trigger]
        found_in(files, config, found) && map == grouped(found)
}

/// Classifies every script of `files` and gathers their paths by verdict.
pub fn compute_license_information(files: &Vec<ScriptFile>, config: &ClassifierConfig) -> (r:
    ScriptLicenses)
    ensures
        is_license_information(files@, *config, r@),
        sorted(r@),
{
    let mut found: Vec<(String, ScriptLicense)> = Vec::new();
    let mut n: usize = 0;
    assert(files@.take(0) == Seq::<ScriptFile>::empty());
    assert(found_view(found@) =~= Seq::<FoundVerdict>::empty());
    while n < files.len()
        invariant
            n <= files.len(),
            found_in(files@.take(n as int), *config, found_view(found@)),
        decreases files.len() - n,
    {
        let file = &files[n];
        let ghost before = found_view(found@);
        proof {
            assert(files@.take(n + 1).drop_last() == files@.take(n as int));
            assert(files@.take(n + 1).last() == *file);
        }
        if has_script_extension(file.path.as_str()) {
            let license = classify(file.source.as_str(), file.path.as_str(), config);
            found.push((file.path.clone(), license));
            proof {
                let after = found_view(found@);
                assert(after =~= before.push((file.path@, license@)));
                assert(after.drop_last() == before);
            }
        }
        n = n + 1;
    }
    assert(files@.take(files.len() as int) == files@);
    group_by_verdict(&found)
}

} // verus!
