//! Rewrite rules: packages that are replaced by another package.

use crate::scan::{first_index, lemma_first_index, lemma_first_index_is};
use crate::text::str_eq;
use vstd::prelude::*;

verus! {

/// A package, by name and pinned version, that a rule replaces.
#[derive(Debug, Clone, PartialEq, Eq)]
pub struct OriginalPackage {
    pub name: String,
    pub version: String,
    pub description: String,
}

/// One rule: every package among `originals` is replaced by `new_source` at
/// `new_version`.
#[derive(Debug, Clone, PartialEq, Eq)]
pub struct PackageRewrite {
    pub new_source: String,
    pub new_version: String,
    pub originals: Vec<OriginalPackage>,
}

/// Whether `original` is the package `name` at `version`, exactly.
pub open spec fn is_original(original: OriginalPackage, name: Seq<char>, version: Seq<char>) -> bool {
    original.name@ == name && original.version@ == version
}

/// Whether `rule` replaces the package `name` at `version`.
pub open spec fn covers(rule: PackageRewrite, name: Seq<char>, version: Seq<char>) -> bool {
    exists|j: int|
        0 <= j < rule.originals@.len() && is_original(#[trigger] rule.originals@[j], name, version)
}

/// The position in `rules` of the first rule that replaces `name` at
/// `version`, or the number of rules where none does.
pub open spec fn first_covering(rules: Seq<PackageRewrite>, name: Seq<char>, version: Seq<char>) -> int {
    first_index(rules.len() as int, |k: int| covers(rules[k], name, version))
}

/// What `name` at `version` resolves to under `rules`: the replacement of the
/// first rule that covers the pair, with `true`; the pair itself, with
/// `false`, where no rule covers it.
pub open spec fn resolved(rules: Seq<PackageRewrite>, name: Seq<char>, version: Seq<char>) -> (
    bool,
    Seq<char>,
    Seq<char>,
) {
    let i = first_covering(rules, name, version);
    if 0 <= i < rules.len() {
        (true, rules[i].new_source@, rules[i].new_version@)
    } else {
        (false, name, version)
    }
}

/// Whether no rule of `rules` replaces what a rule of `rules` puts in place.
pub open spec fn originals_only(rules: Seq<PackageRewrite>) -> bool {
    forall|i: int, k: int|
        0 <= i < rules.len() && 0 <= k < rules.len() ==> !covers(
            #[trigger] rules[k],
            (#[trigger] rules[i]).new_source@,
            rules[i].new_version@,
        )
}

/// Resolution is idempotent: under rules that never replace a replacement,
/// resolving what was resolved changes nothing and reports no rewrite.
pub proof fn lemma_resolve_idempotent(rules: Seq<PackageRewrite>, name: Seq<char>, version: Seq<char>)
    requires
        originals_only(rules),
    ensures
        resolved(rules, resolved(rules, name, version).1, resolved(rules, name, version).2) == (
            false,
            resolved(rules, name, version).1,
            resolved(rules, name, version).2,
        ),
{
    let first = resolved(rules, name, version);
    let p = |k: int| covers(rules[k], name, version);
    let q = |k: int| covers(rules[k], first.1, first.2);
    lemma_first_index(rules.len() as int, p);
    let i = first_covering(rules, name, version);
    assert forall|k: int| 0 <= k < rules.len() implies !(#[trigger] q(k)) by {
        if i < rules.len() {
            assert(!covers(rules[k], rules[i].new_source@, rules[i].new_version@));
        } else {
            assert(!p(k));
        }
    }
    lemma_first_index_is(rules.len() as int, q, rules.len() as int);
}

/// Whether `rule` replaces the package `name` at `version`.
fn rule_covers(rule: &PackageRewrite, name: &str, version: &str) -> (r: bool)
    ensures
        r == covers(*rule, name@, version@),
{
    let mut j: usize = 0;
    while j < rule.originals.len()
        invariant
            j <= rule.originals.len(),
            forall|k: int| 0 <= k < j ==> !is_original(#[trigger] rule.originals@[k], name@, version@),
        decreases rule.originals.len() - j,
    {
        let original = &rule.originals[j];
        if str_eq(original.name.as_str(), name) && str_eq(original.version.as_str(), version) {
            return true;
        }
        j = j + 1;
    }
    false
}

/// Resolves `name` at `version` under `rewrites`: whether a rule replaced the
/// pair, and the name and version to use. Rules are tried in order and the
/// first that holds the pair among its originals wins; a pair that no rule
/// holds comes back unchanged.
pub fn resolve_package(rewrites: &Vec<PackageRewrite>, name: &str, version: &str) -> (r: (
    bool,
    String,
    String,
))
    ensures
        (r.0, r.1@, r.2@) == resolved(rewrites@, name@, version@),
{
    let ghost p = |k: int| covers(rewrites@[k], name@, version@);
    let mut i: usize = 0;
    while i < rewrites.len()
        invariant
            i <= rewrites.len(),
            p == (|k: int| covers(rewrites@[k], name@, version@)),
            forall|k: int| 0 <= k < i ==> !(#[trigger] p(k)),
        decreases rewrites.len() - i,
    {
        let rule = &rewrites[i];
        if rule_covers(rule, name, version) {
            proof {
                assert(p(i as int));
                lemma_first_index_is(rewrites@.len() as int, p, i as int);
            }
            return (true, rule.new_source.clone(), rule.new_version.clone());
        }
        assert(!p(i as int));
        i = i + 1;
    }
    proof {
        lemma_first_index_is(rewrites@.len() as int, p, rewrites@.len() as int);
    }
    (false, name.to_owned(), version.to_owned())
}

} // verus!
